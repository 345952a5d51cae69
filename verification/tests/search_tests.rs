use chrono::NaiveDate;
use timegrid::search::{chunks_fit_check, radius_check, search_chunks, search_window_around, work_search_check};
use timegrid::time::{Window, MAX_INSTANT};
use timegrid::{Target, TimeGridCalendar, TimeGridError, TimeWindow};

fn at(y: i32, m: u32, d: u32, h: u32, mi: u32) -> i64 {
    NaiveDate::from_ymd_opt(y, m, d).unwrap().and_hms_opt(h, mi, 0).unwrap().and_utc().timestamp_micros()
}

fn hm(h: i64, m: i64) -> i64 {
    (h * 60 + m) * 60_000_000
}

fn hours(h: i128) -> i128 {
    h * 3_600_000_000
}

fn date(y: i32, m: u32, d: u32) -> i64 {
    (NaiveDate::from_ymd_opt(y, m, d).unwrap() - NaiveDate::from_ymd_opt(1970, 1, 1).unwrap()).num_days()
}

fn office() -> TimeGridCalendar {
    let mut c = TimeGridCalendar::Weekdays(hm(9, 0), hm(17, 0)).unwrap();
    c.BreakWeekdays(hm(12, 0), hm(13, 0)).unwrap();
    c
}

fn sla_calendar() -> TimeGridCalendar {
    let mut c = office();
    c.AddHoliday(date(2026, 1, 1)).unwrap();
    c.SetClosedWindow("company-offsite".to_string(), at(2026, 1, 7, 13, 0), at(2026, 1, 7, 17, 0)).unwrap();
    c
}

#[test]
fn sla_due_date_trace() {
    let c = sla_calendar();
    let trace = c.At(at(2026, 1, 5, 11, 0)).TraceWorkDuration(hours(10), None).unwrap();
    assert_eq!(trace.Result(), at(2026, 1, 6, 15, 0));
    assert_eq!(trace.Start(), at(2026, 1, 5, 11, 0));
    assert_eq!(trace.RequestedDuration(), hours(10));
    let steps: Vec<(i64, i64, i128)> = trace.Steps().iter().map(|s| (s.window.start, s.window.end, s.duration)).collect();
    assert_eq!(
        steps,
        vec![
            (at(2026, 1, 5, 11, 0), at(2026, 1, 5, 12, 0), hours(1)),
            (at(2026, 1, 5, 13, 0), at(2026, 1, 5, 17, 0), hours(4)),
            (at(2026, 1, 6, 9, 0), at(2026, 1, 6, 12, 0), hours(3)),
            (at(2026, 1, 6, 13, 0), at(2026, 1, 6, 15, 0), hours(2)),
        ]
    );
    assert_eq!(trace.RequestedTicks(), Ok(360_000_000_000));
    assert_eq!(trace.ConsumedTicks(), Ok(360_000_000_000));
}

#[test]
fn add_work_duration_skips_breaks_and_closures() {
    let c = sla_calendar();
    assert_eq!(c.AddWorkDuration(at(2026, 1, 5, 11, 0), hours(10), None), Ok(at(2026, 1, 6, 15, 0)));
    assert_eq!(c.AddWorkDuration(at(2026, 1, 7, 11, 0), hours(2), None), Ok(at(2026, 1, 8, 10, 0)));
    assert_eq!(c.AddWorkDuration(at(2025, 12, 31, 16, 0), hours(2), None), Ok(at(2026, 1, 2, 10, 0)));
}

#[test]
fn add_work_duration_edge_cases() {
    let c = office();
    let start = at(2026, 1, 5, 11, 0);
    assert_eq!(c.AddWorkDuration(start, 0, None), Ok(start));
    assert_eq!(c.AddWorkDuration(start, -1, None), Err(TimeGridError::NegativeDuration));
    assert_eq!(c.AddWorkDuration(start, hours(1), Some(start + hm(0, 30))), Err(TimeGridError::DurationNotFound));
    assert_eq!(c.AddWorkDuration(start, hours(1), Some(at(2026, 1, 5, 12, 0))), Ok(at(2026, 1, 5, 12, 0)));
    let zero = c.TraceWorkDuration(start, 0, None).unwrap();
    assert_eq!(zero.Result(), start);
    assert_eq!(zero.Steps().len(), 0);
    assert_eq!(c.TraceWorkDuration(start, -5, None).unwrap_err(), TimeGridError::NegativeDuration);
    let never = TimeGridCalendar::Create();
    assert_eq!(never.AddWorkDuration(start, hours(1), None), Err(TimeGridError::DurationNotFound));
}

#[test]
fn next_open_time() {
    let c = sla_calendar();
    assert_eq!(c.GetNextOpenTime(at(2026, 1, 5, 10, 0), None), Ok(Some(at(2026, 1, 5, 10, 0))));
    assert_eq!(c.GetNextOpenTime(at(2026, 1, 5, 12, 15), None), Ok(Some(at(2026, 1, 5, 13, 0))));
    assert_eq!(c.GetNextOpenTime(at(2025, 12, 31, 18, 0), None), Ok(Some(at(2026, 1, 2, 9, 0))));
    assert_eq!(c.GetNextOpenTime(at(2026, 1, 10, 8, 0), Some(at(2026, 1, 11, 0, 0))), Ok(None));
    assert_eq!(TimeGridCalendar::Create().GetNextOpenTime(at(2026, 1, 5, 10, 0), None), Ok(None));
}

#[test]
fn working_duration_of_a_week() {
    let c = sla_calendar();
    assert_eq!(c.GetWorkingDuration(at(2026, 1, 5, 0, 0), at(2026, 1, 6, 0, 0)), Ok(hours(7)));
    assert_eq!(c.GetWorkingDuration(at(2026, 1, 5, 0, 0), at(2026, 1, 12, 0, 0)), Ok(hours(31)));
    assert_eq!(c.GetWorkingTicks(at(2026, 1, 5, 0, 0), at(2026, 1, 6, 0, 0)), Ok(252_000_000_000));
    assert_eq!(
        c.GetWorkingDuration(at(2026, 1, 6, 0, 0), at(2026, 1, 5, 0, 0)),
        Err(TimeGridError::EndBeforeStart)
    );
    assert_eq!(c.GetWorkingTicks(at(2026, 1, 6, 0, 0), at(2026, 1, 5, 0, 0)), Err(TimeGridError::EndBeforeStart));
}

#[test]
fn first_slot_with_enough_capacity() {
    let mut c = office();
    c.SetDefaultCapacity(2).unwrap();
    c.AddCapacityOverride(at(2026, 1, 6, 14, 0), at(2026, 1, 6, 17, 0), 3).unwrap();
    let slot = c.FindFirstSlot(at(2026, 1, 5, 8, 0), hours(2), 3, None).unwrap();
    assert_eq!(slot, Some(Window { start: at(2026, 1, 6, 14, 0), end: at(2026, 1, 6, 16, 0) }));
    let long = c.FindFirstSlot(at(2026, 1, 5, 8, 0), hours(4), 1, None).unwrap();
    assert_eq!(long, Some(Window { start: at(2026, 1, 5, 13, 0), end: at(2026, 1, 5, 17, 0) }));
    let point = c.FindFirstSlot(at(2026, 1, 5, 12, 30), 0, 1, None).unwrap();
    assert_eq!(point, Some(Window { start: at(2026, 1, 5, 13, 0), end: at(2026, 1, 5, 13, 0) }));
    let none = c.FindFirstSlot(at(2026, 1, 5, 8, 0), hours(5), 1, Some(at(2026, 1, 20, 0, 0))).unwrap();
    assert_eq!(none, None);
}

#[test]
fn first_slot_errors() {
    let c = office();
    assert_eq!(c.FindFirstSlot(at(2026, 1, 5, 8, 0), -1, 1, None).unwrap_err(), TimeGridError::NegativeDuration);
    assert_eq!(
        c.FindFirstSlot(at(2026, 1, 5, 8, 0), hours(1), 0, None).unwrap_err(),
        TimeGridError::RequiredCapacityNotPositive
    );
}

#[test]
fn first_slot_across_chunk_boundary() {
    let start = at(2026, 1, 5, 0, 0);
    let c = TimeGridCalendar::Window(at(2026, 1, 11, 0, 0), at(2026, 1, 16, 0, 0)).unwrap();
    let slot = c.FindFirstSlot(start, hours(72), 1, None).unwrap();
    assert_eq!(slot, Some(Window { start: at(2026, 1, 11, 0, 0), end: at(2026, 1, 14, 0, 0) }));
}

#[test]
fn first_slot_of_exactly_seven_days_across_chunks() {
    let start = at(2026, 1, 5, 0, 0);
    let c = TimeGridCalendar::Window(at(2026, 1, 5, 1, 0), at(2026, 1, 13, 1, 0)).unwrap();
    let week = hours(7 * 24);
    assert_eq!(
        c.FindFirstSlot(start, week, 1, Some(at(2026, 1, 19, 0, 0))).unwrap(),
        Some(Window { start: at(2026, 1, 5, 1, 0), end: at(2026, 1, 12, 1, 0) })
    );
    let january = TimeGridCalendar::Window(at(2026, 1, 1, 0, 0), at(2026, 2, 1, 0, 0)).unwrap();
    assert_eq!(
        january.FindFirstSlot(at(2025, 12, 31, 0, 0), week, 1, None).unwrap(),
        Some(Window { start: at(2026, 1, 1, 0, 0), end: at(2026, 1, 8, 0, 0) })
    );
    let chunks = search_chunks(start, at(2026, 2, 5, 0, 0), week);
    assert_eq!(chunks[1].start, chunks[0].end - week as i64);
    assert_eq!(
        c.FindFirstSlot(start, hours(6 * 24), 1, Some(at(2026, 1, 19, 0, 0))).unwrap(),
        Some(Window { start: at(2026, 1, 5, 1, 0), end: at(2026, 1, 11, 1, 0) })
    );
}

#[test]
fn first_slot_of_exactly_seven_days_at_a_whole_week() {
    let start = at(2026, 1, 5, 0, 0);
    let c = TimeGridCalendar::Window(at(2026, 1, 12, 0, 0), at(2026, 1, 20, 0, 0)).unwrap();
    let week = hours(7 * 24);
    assert_eq!(
        c.FindFirstSlot(start, week, 1, Some(at(2026, 1, 26, 0, 0))).unwrap(),
        Some(Window { start: at(2026, 1, 12, 0, 0), end: at(2026, 1, 19, 0, 0) })
    );
}

#[test]
fn transitions_around_an_instant() {
    let c = office();
    let t = at(2026, 1, 5, 10, 0);
    assert_eq!(c.GetNextTransitionTime(t, None), Ok(Some(at(2026, 1, 5, 12, 0))));
    assert_eq!(c.GetPreviousTransitionTime(t, None), Ok(Some(at(2026, 1, 5, 9, 0))));
    assert_eq!(c.GetNearestTransitionTime(t, None), Ok(Some(at(2026, 1, 5, 9, 0))));
    assert_eq!(c.GetNearestTransitionTime(at(2026, 1, 5, 11, 0), None), Ok(Some(at(2026, 1, 5, 12, 0))));
    assert_eq!(c.GetNearestTransitionTime(at(2026, 1, 5, 10, 30), None), Ok(Some(at(2026, 1, 5, 9, 0))));
    assert_eq!(c.GetNearestTransitionTime(at(2026, 1, 5, 12, 0), None), Ok(Some(at(2026, 1, 5, 12, 0))));
    assert_eq!(c.GetNextTransitionTime(t, Some(hours(1))), Ok(None));
    assert_eq!(c.GetPreviousTransitionTime(t, Some(hours(1))), Ok(None));
    assert_eq!(c.GetNextTransitionTime(t, Some(0)), Err(TimeGridError::SearchRadiusNotPositive));
    assert_eq!(c.GetNearestTransitionTime(t, Some(-1)), Err(TimeGridError::SearchRadiusNotPositive));
}

#[test]
fn current_windows_around_an_instant() {
    let c = office();
    let t = at(2026, 1, 5, 10, 0);
    assert_eq!(
        c.GetCurrentOpenWindow(t, None),
        Ok(Some(Window { start: at(2026, 1, 5, 9, 0), end: at(2026, 1, 5, 12, 0) }))
    );
    assert_eq!(c.GetCurrentUnavailableWindow(t, None), Ok(None));
    assert_eq!(
        c.GetCurrentUnavailableWindow(at(2026, 1, 5, 12, 30), None),
        Ok(Some(Window { start: at(2026, 1, 5, 12, 0), end: at(2026, 1, 5, 13, 0) }))
    );
    assert_eq!(
        c.GetCurrentOpenWindow(t, Some(hours(1))),
        Ok(Some(Window { start: at(2026, 1, 5, 9, 0), end: at(2026, 1, 5, 11, 0) }))
    );
    assert_eq!(c.GetCurrentOpenWindow(t, Some(0)), Err(TimeGridError::SearchRadiusNotPositive));
}

#[test]
fn windows_at_an_instant_explain_the_state() {
    let mut c = office();
    c.SetCapacityWindow("crew".to_string(), at(2026, 1, 5, 12, 0), at(2026, 1, 5, 13, 0), 2).unwrap();
    c.AddCapacityOverride(at(2026, 1, 5, 11, 0), at(2026, 1, 5, 14, 0), 3).unwrap();
    let matches = c.GetWindowsAt(at(2026, 1, 5, 12, 30), None).unwrap();
    let got: Vec<(u8, i64, i64, Option<i32>)> =
        matches.iter().map(|m| (m.kind, m.window.start, m.window.end, m.capacity)).collect();
    assert_eq!(
        got,
        vec![
            (1, at(2026, 1, 5, 12, 0), at(2026, 1, 5, 13, 0), Some(0)),
            (2, at(2026, 1, 5, 9, 0), at(2026, 1, 5, 17, 0), None),
            (4, at(2026, 1, 5, 12, 0), at(2026, 1, 5, 13, 0), None),
            (6, at(2026, 1, 5, 12, 0), at(2026, 1, 5, 13, 0), Some(2)),
            (6, at(2026, 1, 5, 11, 0), at(2026, 1, 5, 14, 0), Some(3)),
        ]
    );
    assert_eq!(c.GetWindowsAt(at(2026, 1, 5, 12, 30), Some(0)).unwrap_err(), TimeGridError::SearchRadiusNotPositive);
}

#[test]
fn windows_at_an_open_instant() {
    let mut c = office();
    c.AddHoliday(date(2026, 1, 6)).unwrap();
    c.SetOpenWindow("extra".to_string(), at(2026, 1, 6, 10, 0), at(2026, 1, 6, 11, 0)).unwrap();
    let matches = c.GetWindowsAt(at(2026, 1, 5, 10, 0), None).unwrap();
    assert_eq!(matches[0].kind, 0);
    assert_eq!(matches[0].capacity, Some(1));
    assert_eq!(matches[0].window, Window { start: at(2026, 1, 5, 9, 0), end: at(2026, 1, 5, 12, 0) });
    let closed = c.GetWindowsAt(at(2026, 1, 6, 10, 30), None).unwrap();
    let kinds: Vec<u8> = closed.iter().map(|m| m.kind).collect();
    assert_eq!(kinds, vec![1, 2, 5, 3]);
}

#[test]
fn instant_analysis_of_calendar() {
    let c = office();
    let a = c.instant_analysis(at(2026, 1, 5, 10, 0), None).unwrap();
    assert_eq!(a.Instant(), at(2026, 1, 5, 10, 0));
    assert_eq!(a.Capacity(), 1);
    assert!(a.CanWork());
    assert_eq!(a.CurrentWindow(), Some(Window { start: at(2026, 1, 5, 9, 0), end: at(2026, 1, 5, 12, 0) }));
    assert_eq!(a.PreviousTransition(), Some(at(2026, 1, 5, 9, 0)));
    assert_eq!(a.NextTransition(), Some(at(2026, 1, 5, 12, 0)));
    assert_eq!(a.Matches().len(), 2);
    assert_eq!(c.instant_analysis(at(2026, 1, 5, 10, 0), Some(0)).unwrap_err(), TimeGridError::SearchRadiusNotPositive);
}

#[test]
fn point_queries() {
    let c = office();
    let q = c.At(at(2026, 1, 5, 12, 30));
    assert!(!q.CanWork());
    assert_eq!(q.GetCapacity(), 0);
    assert_eq!(q.HasCapacity(1), Ok(false));
    assert_eq!(q.HasCapacity(0), Err(TimeGridError::RequiredCapacityNotPositive));
    assert_eq!(q.GetNextOpenTime(None), Ok(Some(at(2026, 1, 5, 13, 0))));
    assert_eq!(q.AddWorkDuration(hours(1), None), Ok(at(2026, 1, 5, 14, 0)));
    assert_eq!(q.GetNextTransitionTime(None), Ok(Some(at(2026, 1, 5, 13, 0))));
    assert_eq!(q.GetPreviousTransitionTime(None), Ok(Some(at(2026, 1, 5, 12, 0))));
    assert_eq!(q.GetNearestTransitionTime(None), Ok(Some(at(2026, 1, 5, 12, 0))));
    assert_eq!(
        q.GetCurrentUnavailableWindow(None),
        Ok(Some(Window { start: at(2026, 1, 5, 12, 0), end: at(2026, 1, 5, 13, 0) }))
    );
    assert_eq!(q.GetCurrentOpenWindow(None), Ok(None));
    assert_eq!(q.GetWindows(None).unwrap().len(), 3);
    assert_eq!(q.Analyze(None).unwrap().Capacity(), 0);
    assert_eq!(q.TraceWorkDuration(hours(1), None).unwrap().Result(), at(2026, 1, 5, 14, 0));
}

#[test]
fn range_queries() {
    let c = office();
    let q = c.Between(at(2026, 1, 5, 0, 0), at(2026, 1, 6, 0, 0));
    assert_eq!(q.GetOpenWindows().unwrap().len(), 2);
    assert_eq!(q.GetUnavailableWindows().unwrap().len(), 3);
    assert_eq!(q.GetStateWindows().unwrap().len(), 5);
    assert_eq!(q.GetWorkingDuration(), Ok(hours(7)));
    assert_eq!(q.GetWorkingTicks(), Ok(252_000_000_000));
    assert_eq!(q.GetCapacityWindows(1).unwrap().len(), 2);
    assert_eq!(q.CanWork(), Ok(false));
    assert_eq!(q.HasCapacity(1), Ok(false));
    assert_eq!(q.HasCapacity(0), Err(TimeGridError::RequiredCapacityNotPositive));
    assert_eq!(
        q.FindFirstSlot(hours(3), 1),
        Ok(Some(Window { start: at(2026, 1, 5, 9, 0), end: at(2026, 1, 5, 12, 0) }))
    );
    let analysis = q.Analyze().unwrap();
    assert_eq!(analysis.working_duration(), hours(7));
    assert_eq!(analysis.WorkingTicks(), Ok(252_000_000_000));
    assert_eq!(analysis.Segments().len(), 5);
    let morning = c.Between(at(2026, 1, 5, 9, 0), at(2026, 1, 5, 12, 0));
    assert_eq!(morning.CanWork(), Ok(true));
    let reversed = c.Between(at(2026, 1, 6, 0, 0), at(2026, 1, 5, 0, 0));
    assert_eq!(reversed.CanWork(), Err(TimeGridError::EndBeforeStart));
    assert_eq!(reversed.Analyze().unwrap_err(), TimeGridError::EndBeforeStart);
}

#[test]
fn search_chunks_overlap_by_the_slot() {
    let start = at(2026, 1, 5, 0, 0);
    let until = at(2026, 1, 25, 0, 0);
    let chunks = search_chunks(start, until, hours(24));
    assert_eq!(chunks[0], Window { start, end: at(2026, 1, 12, 0, 0) });
    assert_eq!(chunks[1].start, at(2026, 1, 11, 0, 0));
    assert_eq!(chunks.last().unwrap().end, until);
    let plain = search_chunks(start, until, 0);
    assert_eq!(plain.len(), 3);
    assert_eq!(plain[1], Window { start: at(2026, 1, 12, 0, 0), end: at(2026, 1, 19, 0, 0) });
    assert!(search_chunks(until, start, 0).is_empty());
}

#[test]
fn search_range_checks() {
    assert_eq!(
        search_window_around(at(2026, 1, 5, 0, 0), None),
        Ok(Window { start: at(2025, 12, 29, 0, 0), end: at(2026, 1, 12, 0, 0) })
    );
    assert_eq!(search_window_around(at(2026, 1, 5, 0, 0), Some(0)), Err(TimeGridError::SearchRadiusNotPositive));
    assert!(radius_check(at(2026, 1, 5, 0, 0), None));
    assert!(!radius_check(MAX_INSTANT, None));
    assert!(radius_check(MAX_INSTANT, Some(-3)));
    assert!(work_search_check(at(2026, 1, 5, 0, 0), hours(1), None));
    assert!(!work_search_check(MAX_INSTANT - 5, hours(1), None));
    assert!(work_search_check(MAX_INSTANT - 5, 0, None));
    assert!(chunks_fit_check(at(2026, 1, 5, 0, 0), at(2026, 2, 5, 0, 0), 0));
    assert!(!chunks_fit_check(MAX_INSTANT - 10, MAX_INSTANT, 0));
}

#[test]
fn can_work_target_instant() {
    let c = office();
    assert!(c.CanWork(Target::Instant(at(2026, 1, 5, 10, 0))).unwrap());
    let w = TimeWindow::new(at(2026, 1, 5, 13, 0), at(2026, 1, 5, 17, 0)).unwrap();
    assert!(c.CanWork(Target::Window(w)).unwrap());
}

#[test]
fn search_chunks_hold_every_span() {
    let start = at(2026, 1, 5, 0, 0);
    let until = at(2026, 3, 1, 0, 0);
    for span in [0i128, hours(5), hours(7 * 24), hours(9 * 24)] {
        let chunks = search_chunks(start, until, span);
        let mut a = start;
        while a as i128 + span <= until as i128 {
            assert!(chunks.iter().any(|k| k.start <= a && a as i128 + span <= k.end as i128));
            a += 3 * 3_600_000_000 + 17;
        }
    }
}

#[test]
fn trace_steps_are_cut_at_search_chunks() {
    let start = at(2026, 1, 5, 0, 0);
    let c = TimeGridCalendar::Window(start, at(2026, 2, 5, 0, 0)).unwrap();
    let trace = c.TraceWorkDuration(start, hours(10 * 24), None).unwrap();
    let steps: Vec<(i64, i64)> = trace.Steps().iter().map(|s| (s.window.start, s.window.end)).collect();
    assert_eq!(steps, vec![(start, at(2026, 1, 12, 0, 0)), (at(2026, 1, 12, 0, 0), at(2026, 1, 15, 0, 0))]);
    assert_eq!(trace.Result(), at(2026, 1, 15, 0, 0));
}
