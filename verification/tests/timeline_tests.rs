use chrono::NaiveDate;
use timegrid::time::Window;
use timegrid::{TimeGridCalendar, TimeGridError, TimeGridTimeline, TimeGridTimelineBatch};

fn at(y: i32, m: u32, d: u32, h: u32, mi: u32) -> i64 {
    NaiveDate::from_ymd_opt(y, m, d).unwrap().and_hms_opt(h, mi, 0).unwrap().and_utc().timestamp_micros()
}

fn hm(h: i64, m: i64) -> i64 {
    (h * 60 + m) * 60_000_000
}

fn hours(h: i128) -> i128 {
    h * 3_600_000_000
}

fn machine() -> TimeGridCalendar {
    let mut c = TimeGridCalendar::Weekdays(hm(7, 0), hm(19, 0)).unwrap();
    c.BreakWeekdays(hm(12, 0), hm(12, 45)).unwrap();
    c.SetDefaultCapacity(3).unwrap();
    c.SetClosedWindow("maintenance".to_string(), at(2026, 1, 5, 15, 0), at(2026, 1, 5, 17, 0)).unwrap();
    c.SetCapacityWindow("overtime".to_string(), at(2026, 1, 5, 17, 0), at(2026, 1, 5, 19, 0), 5).unwrap();
    c
}

fn compiled() -> TimeGridTimeline {
    machine().Compile(at(2026, 1, 5, 0, 0), at(2026, 1, 6, 0, 0)).unwrap()
}

#[test]
fn compile_rejects_reversed_range() {
    assert_eq!(machine().Compile(at(2026, 1, 6, 0, 0), at(2026, 1, 5, 0, 0)).unwrap_err(), TimeGridError::EndBeforeStart);
    let empty = machine().Compile(at(2026, 1, 5, 0, 0), at(2026, 1, 5, 0, 0)).unwrap();
    assert_eq!(empty.GetCapacityAt(at(2026, 1, 5, 0, 0)), Err(TimeGridError::OutsideTimeline));
}

#[test]
fn timeline_capacity_matches_calendar() {
    let c = machine();
    let tl = compiled();
    assert_eq!(tl.Window(), Window { start: at(2026, 1, 5, 0, 0), end: at(2026, 1, 6, 0, 0) });
    let mut t = at(2026, 1, 5, 0, 0);
    while t < at(2026, 1, 6, 0, 0) {
        assert_eq!(tl.GetCapacityAt(t), Ok(c.GetCapacityAt(t)));
        t += hm(0, 15);
    }
    assert_eq!(tl.GetCapacityAt(at(2026, 1, 5, 18, 0)), Ok(5));
    assert_eq!(tl.GetCapacityAt(at(2026, 1, 5, 16, 0)), Ok(0));
    assert_eq!(tl.CanWork(at(2026, 1, 5, 8, 0)), Ok(true));
    assert_eq!(tl.CanWork(at(2026, 1, 5, 12, 30)), Ok(false));
}

#[test]
fn timeline_rejects_instants_outside() {
    let tl = compiled();
    assert_eq!(tl.GetCapacityAt(at(2026, 1, 6, 0, 0)), Err(TimeGridError::OutsideTimeline));
    assert_eq!(tl.GetCapacityAt(at(2026, 1, 4, 23, 59)), Err(TimeGridError::OutsideTimeline));
    assert_eq!(
        tl.GetCapacitiesAt(vec![at(2026, 1, 5, 8, 0), at(2026, 1, 7, 8, 0)]),
        Err(TimeGridError::OutsideTimeline)
    );
    assert_eq!(tl.CanWork(at(2026, 1, 7, 8, 0)), Err(TimeGridError::OutsideTimeline));
}

#[test]
fn timeline_capacities_at_many_instants() {
    let tl = compiled();
    let caps = tl
        .GetCapacitiesAt(vec![at(2026, 1, 5, 6, 0), at(2026, 1, 5, 8, 0), at(2026, 1, 5, 12, 30), at(2026, 1, 5, 18, 0)])
        .unwrap();
    assert_eq!(caps, vec![0, 3, 0, 5]);
    assert_eq!(tl.GetCapacitiesAt(Vec::new()), Ok(Vec::new()));
}

#[test]
fn timeline_state_windows_match_calendar() {
    let c = machine();
    let tl = compiled();
    let from_timeline = tl.GetStateWindows(at(2026, 1, 5, 10, 0), at(2026, 1, 5, 18, 0)).unwrap();
    let from_calendar = c.GetStateWindows(at(2026, 1, 5, 10, 0), at(2026, 1, 5, 18, 0)).unwrap();
    assert_eq!(from_timeline, from_calendar);
    let got: Vec<(i64, i64, i32)> = from_timeline.iter().map(|s| (s.window.start, s.window.end, s.capacity)).collect();
    assert_eq!(
        got,
        vec![
            (at(2026, 1, 5, 10, 0), at(2026, 1, 5, 12, 0), 3),
            (at(2026, 1, 5, 12, 0), at(2026, 1, 5, 12, 45), 0),
            (at(2026, 1, 5, 12, 45), at(2026, 1, 5, 15, 0), 3),
            (at(2026, 1, 5, 15, 0), at(2026, 1, 5, 17, 0), 0),
            (at(2026, 1, 5, 17, 0), at(2026, 1, 5, 18, 0), 5),
        ]
    );
    assert_eq!(tl.GetStateWindows(at(2026, 1, 5, 10, 0), at(2026, 1, 5, 10, 0)), Ok(Vec::new()));
}

#[test]
fn timeline_range_errors() {
    let tl = compiled();
    assert_eq!(
        tl.GetStateWindows(at(2026, 1, 5, 10, 0), at(2026, 1, 5, 9, 0)).unwrap_err(),
        TimeGridError::EndBeforeStart
    );
    assert_eq!(
        tl.GetStateWindows(at(2026, 1, 4, 10, 0), at(2026, 1, 5, 9, 0)).unwrap_err(),
        TimeGridError::RangeOutsideTimeline
    );
    assert_eq!(
        tl.GetOpenWindows(at(2026, 1, 5, 10, 0), at(2026, 1, 6, 9, 0)).unwrap_err(),
        TimeGridError::RangeOutsideTimeline
    );
    assert_eq!(
        tl.GetCapacityWindows(at(2026, 1, 5, 10, 0), at(2026, 1, 5, 11, 0), 0).unwrap_err(),
        TimeGridError::RequiredCapacityNotPositive
    );
    assert_eq!(
        tl.GetWorkingDuration(at(2026, 1, 5, 10, 0), at(2026, 1, 7, 0, 0)).unwrap_err(),
        TimeGridError::RangeOutsideTimeline
    );
}

#[test]
fn timeline_windows_by_capacity() {
    let tl = compiled();
    let open = tl.GetOpenWindows(at(2026, 1, 5, 0, 0), at(2026, 1, 6, 0, 0)).unwrap();
    assert_eq!(
        open,
        vec![
            Window { start: at(2026, 1, 5, 7, 0), end: at(2026, 1, 5, 12, 0) },
            Window { start: at(2026, 1, 5, 12, 45), end: at(2026, 1, 5, 15, 0) },
            Window { start: at(2026, 1, 5, 17, 0), end: at(2026, 1, 5, 19, 0) },
        ]
    );
    let down = tl.GetUnavailableWindows(at(2026, 1, 5, 0, 0), at(2026, 1, 6, 0, 0)).unwrap();
    assert_eq!(down.len(), 4);
    assert_eq!(down[0], Window { start: at(2026, 1, 5, 0, 0), end: at(2026, 1, 5, 7, 0) });
    let boosted = tl.GetCapacityWindows(at(2026, 1, 5, 0, 0), at(2026, 1, 6, 0, 0), 4).unwrap();
    assert_eq!(boosted, vec![Window { start: at(2026, 1, 5, 17, 0), end: at(2026, 1, 5, 19, 0) }]);
}

#[test]
fn timeline_working_duration() {
    let tl = compiled();
    let work = tl.GetWorkingDuration(at(2026, 1, 5, 0, 0), at(2026, 1, 6, 0, 0)).unwrap();
    assert_eq!(work, hours(12) - hours(2) - 45 * 60_000_000);
    let c = machine();
    assert_eq!(c.GetWorkingDuration(at(2026, 1, 5, 0, 0), at(2026, 1, 6, 0, 0)), Ok(work));
}

#[test]
fn timeline_first_slot() {
    let tl = compiled();
    assert_eq!(
        tl.FindFirstSlot(at(2026, 1, 5, 6, 0), hours(2), 4, None),
        Ok(Some(Window { start: at(2026, 1, 5, 17, 0), end: at(2026, 1, 5, 19, 0) }))
    );
    assert_eq!(
        tl.FindFirstSlot(at(2026, 1, 5, 6, 0), hours(3), 1, None),
        Ok(Some(Window { start: at(2026, 1, 5, 7, 0), end: at(2026, 1, 5, 10, 0) }))
    );
    assert_eq!(
        tl.FindFirstSlot(at(2026, 1, 5, 12, 10), 0, 1, None),
        Ok(Some(Window { start: at(2026, 1, 5, 12, 45), end: at(2026, 1, 5, 12, 45) }))
    );
    assert_eq!(tl.FindFirstSlot(at(2026, 1, 5, 6, 0), hours(6), 1, None), Ok(None));
    assert_eq!(tl.FindFirstSlot(at(2026, 1, 5, 6, 0), -1, 1, None), Err(TimeGridError::NegativeDuration));
    assert_eq!(tl.FindFirstSlot(at(2026, 1, 5, 6, 0), hours(1), 0, None), Err(TimeGridError::RequiredCapacityNotPositive));
    assert_eq!(tl.FindFirstSlot(at(2026, 1, 5, 6, 0), -1, 0, None), Err(TimeGridError::NegativeDuration));
    assert_eq!(
        tl.FindFirstSlot(at(2026, 1, 5, 6, 0), hours(1), 1, Some(at(2026, 1, 7, 0, 0))),
        Err(TimeGridError::RangeOutsideTimeline)
    );
}

#[test]
fn timeline_analysis_of_instants() {
    let tl = compiled();
    let a = tl.instant_analysis(at(2026, 1, 5, 16, 0), false).unwrap();
    assert_eq!(a.Capacity(), 0);
    assert!(!a.CanWork());
    assert_eq!(a.CurrentWindow(), Some(Window { start: at(2026, 1, 5, 15, 0), end: at(2026, 1, 5, 17, 0) }));
    assert_eq!(a.PreviousTransition(), Some(at(2026, 1, 5, 15, 0)));
    assert_eq!(a.NextTransition(), Some(at(2026, 1, 5, 17, 0)));
    assert!(a.Matches().is_empty());
    let first = tl.instant_analysis(at(2026, 1, 5, 3, 0), false).unwrap();
    assert_eq!(first.PreviousTransition(), None);
    assert_eq!(first.NextTransition(), Some(at(2026, 1, 5, 7, 0)));
    let last = tl.instant_analysis(at(2026, 1, 5, 20, 0), true).unwrap();
    assert_eq!(last.NextTransition(), None);
    assert_eq!(last.PreviousTransition(), Some(at(2026, 1, 5, 19, 0)));
    assert_eq!(last.Matches()[0].kind, 1);
    assert_eq!(tl.instant_analysis(at(2026, 1, 6, 0, 0), false).unwrap_err(), TimeGridError::OutsideTimeline);
    let many = tl.AnalyzeMany(vec![at(2026, 1, 5, 8, 0), at(2026, 1, 5, 18, 0)], false).unwrap();
    assert_eq!(many.len(), 2);
    assert_eq!(many[1].Capacity(), 5);
    assert_eq!(
        tl.AnalyzeMany(vec![at(2026, 1, 5, 8, 0), at(2026, 1, 8, 18, 0)], false).unwrap_err(),
        TimeGridError::OutsideTimeline
    );
}

#[test]
fn timeline_range_analysis() {
    let tl = compiled();
    let a = tl.AnalyzeRange(at(2026, 1, 5, 10, 0), at(2026, 1, 5, 18, 0)).unwrap();
    assert_eq!(a.Window(), Window { start: at(2026, 1, 5, 10, 0), end: at(2026, 1, 5, 18, 0) });
    assert_eq!(a.Segments().len(), 5);
    assert_eq!(a.working_duration(), hours(5) + 15 * 60_000_000);
    assert_eq!(tl.AnalyzeRange(at(2026, 1, 5, 10, 0), at(2026, 1, 5, 9, 0)).unwrap_err(), TimeGridError::EndBeforeStart);
}

#[test]
fn batch_of_timelines() {
    let a = compiled();
    let mut other = TimeGridCalendar::Window(at(2026, 1, 5, 0, 0), at(2026, 1, 5, 12, 0)).unwrap();
    other.SetDefaultCapacity(2).unwrap();
    let b = other.Compile(at(2026, 1, 5, 0, 0), at(2026, 1, 6, 0, 0)).unwrap();
    let c = other.Compile(at(2026, 1, 5, 0, 0), at(2026, 1, 5, 12, 0)).unwrap();
    let batch = TimeGridTimelineBatch::Create(vec![a.duplicate(), b.duplicate()]);
    assert_eq!(batch.Count(), 2);
    assert_eq!(batch.GetCapacitiesAt(at(2026, 1, 5, 8, 0)), Ok(vec![3, 2]));
    assert_eq!(batch.GetCapacitiesAt(at(2026, 1, 5, 13, 0)), Ok(vec![3, 0]));
    let analyses = batch.Analyze(at(2026, 1, 5, 8, 0), false).unwrap();
    assert_eq!(analyses.len(), 2);
    assert_eq!(analyses[1].NextTransition(), Some(at(2026, 1, 5, 12, 0)));
    let short = TimeGridTimelineBatch::new(vec![a, c]);
    assert_eq!(short.GetCapacitiesAt(at(2026, 1, 5, 13, 0)), Err(TimeGridError::OutsideTimeline));
}
