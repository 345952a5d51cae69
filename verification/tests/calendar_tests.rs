use chrono::NaiveDate;
use timegrid::rules::{expand_rules, WeeklyRule};
use timegrid::windows::{merge, subtract_into};
use timegrid::time::{Window, MAX_DATE};
use timegrid::{
    DayOfWeek, Target, TimeGridCalendar, TimeGridEntryKind, TimeGridError, TimeGridWeeklyRule,
    TimeGridWindowKind, TimeWindow,
};

fn at(y: i32, m: u32, d: u32, h: u32, mi: u32) -> i64 {
    NaiveDate::from_ymd_opt(y, m, d).unwrap().and_hms_opt(h, mi, 0).unwrap().and_utc().timestamp_micros()
}

fn hm(h: i64, m: i64) -> i64 {
    (h * 60 + m) * 60_000_000
}

fn date(y: i32, m: u32, d: u32) -> i64 {
    (NaiveDate::from_ymd_opt(y, m, d).unwrap() - NaiveDate::from_ymd_opt(1970, 1, 1).unwrap()).num_days()
}

fn office() -> TimeGridCalendar {
    let mut c = TimeGridCalendar::Weekdays(hm(9, 0), hm(17, 0)).unwrap();
    c.BreakWeekdays(hm(12, 0), hm(13, 0)).unwrap();
    c
}

#[test]
fn constants_name_days_and_kinds() {
    assert_eq!(DayOfWeek::Sunday, 0);
    assert_eq!(DayOfWeek::Monday, 1);
    assert_eq!(DayOfWeek::Saturday, 6);
    assert_eq!(TimeGridEntryKind::Open, 0);
    assert_eq!(TimeGridEntryKind::Closed, 1);
    assert_eq!(TimeGridEntryKind::Capacity, 2);
    assert_eq!(TimeGridWindowKind::Available, 0);
    assert_eq!(TimeGridWindowKind::Unavailable, 1);
    assert_eq!(TimeGridWindowKind::OpenRule, 2);
    assert_eq!(TimeGridWindowKind::OpenWindow, 3);
    assert_eq!(TimeGridWindowKind::BreakRule, 4);
    assert_eq!(TimeGridWindowKind::ClosedWindow, 5);
    assert_eq!(TimeGridWindowKind::CapacityOverride, 6);
}

#[test]
fn weekly_rule_validation() {
    assert_eq!(TimeGridWeeklyRule::new(7, hm(9, 0), hm(17, 0)).unwrap_err(), TimeGridError::DayOutOfRange);
    assert_eq!(TimeGridWeeklyRule::new(1, hm(9, 0), hm(9, 0)).unwrap_err(), TimeGridError::SameStartAndEnd);
    let rule = TimeGridWeeklyRule::new(1, hm(9, 0), hm(17, 0)).unwrap();
    assert_eq!(rule.Day(), 1);
    assert_eq!(rule.Start(), hm(9, 0));
    assert_eq!(rule.End(), hm(17, 0));
}

#[test]
fn overnight_rule_runs_into_next_day() {
    let rule = TimeGridWeeklyRule::new(DayOfWeek::Friday, hm(22, 0), hm(6, 0)).unwrap();
    assert!(rule.Contains(at(2026, 1, 9, 23, 0)));
    assert!(rule.Contains(at(2026, 1, 10, 5, 59)));
    assert!(!rule.Contains(at(2026, 1, 10, 6, 0)));
    assert!(!rule.Contains(at(2026, 1, 9, 21, 59)));
    let w = rule.ToWindow(date(2026, 1, 9));
    assert_eq!(w.inner, Window { start: at(2026, 1, 9, 22, 0), end: at(2026, 1, 10, 6, 0) });
}

#[test]
fn overnight_rule_on_last_date_ends_same_day() {
    let rule = WeeklyRule::new(0, hm(22, 0), hm(6, 0)).unwrap();
    let w = rule.to_window(MAX_DATE);
    assert_eq!(w.end - w.start, -hm(16, 0));
}

#[test]
fn weekday_calendar_capacity() {
    let c = office();
    assert_eq!(c.GetCapacityAt(at(2026, 1, 5, 10, 0)), 1);
    assert_eq!(c.GetCapacityAt(at(2026, 1, 5, 12, 30)), 0);
    assert_eq!(c.GetCapacityAt(at(2026, 1, 5, 17, 0)), 0);
    assert_eq!(c.GetCapacityAt(at(2026, 1, 5, 9, 0)), 1);
    assert_eq!(c.GetCapacityAt(at(2026, 1, 10, 10, 0)), 0);
    assert_eq!(c.OpenRules().len(), 5);
    assert_eq!(c.BreakRules().len(), 5);
    assert_eq!(c.DefaultCapacity(), 1);
    assert!(!c.IsComposite());
}

#[test]
fn empty_calendar_is_never_open() {
    let c = TimeGridCalendar::Create();
    assert_eq!(c.GetCapacityAt(at(2026, 1, 5, 10, 0)), 0);
    assert!(!c.CanWork(Target::Instant(at(2026, 1, 5, 10, 0))).unwrap());
}

#[test]
fn weekdays_rejects_equal_times() {
    assert_eq!(TimeGridCalendar::Weekdays(hm(9, 0), hm(9, 0)).unwrap_err(), TimeGridError::SameStartAndEnd);
}

#[test]
fn window_calendar_rejects_reversed_window() {
    let e = TimeGridCalendar::Window(at(2026, 1, 6, 0, 0), at(2026, 1, 5, 0, 0)).unwrap_err();
    assert_eq!(e, TimeGridError::EndBeforeStart);
    let c = TimeGridCalendar::Window(at(2026, 1, 5, 0, 0), at(2026, 1, 6, 0, 0)).unwrap();
    assert_eq!(c.GetCapacityAt(at(2026, 1, 5, 23, 59)), 1);
    assert_eq!(c.GetCapacityAt(at(2026, 1, 6, 0, 0)), 0);
}

#[test]
fn holiday_closes_whole_day() {
    let mut c = office();
    c.AddHoliday(date(2026, 1, 6)).unwrap();
    assert_eq!(c.GetCapacityAt(at(2026, 1, 6, 10, 0)), 0);
    assert_eq!(c.GetCapacityAt(at(2026, 1, 7, 10, 0)), 1);
    let closed = c.ClosedWindows();
    assert_eq!(closed.len(), 1);
    assert_eq!(closed[0].inner, Window { start: at(2026, 1, 6, 0, 0), end: at(2026, 1, 7, 0, 0) });
}

#[test]
fn holiday_on_last_date_overflows() {
    let mut c = office();
    assert_eq!(c.AddHoliday(MAX_DATE).unwrap_err(), TimeGridError::DateOverflow);
    assert_eq!(c.ClosedWindows().len(), 0);
}

#[test]
fn capacity_override_and_entry() {
    let mut c = office();
    c.SetDefaultCapacity(3).unwrap();
    c.AddCapacityOverride(at(2026, 1, 5, 14, 0), at(2026, 1, 5, 16, 0), 5).unwrap();
    c.SetCapacityWindow("crew".to_string(), at(2026, 1, 5, 15, 0), at(2026, 1, 5, 17, 0), 2).unwrap();
    assert_eq!(c.GetCapacityAt(at(2026, 1, 5, 10, 0)), 3);
    assert_eq!(c.GetCapacityAt(at(2026, 1, 5, 14, 30)), 5);
    assert_eq!(c.GetCapacityAt(at(2026, 1, 5, 15, 30)), 2);
    assert_eq!(c.GetCapacityAt(at(2026, 1, 5, 12, 30)), 0);
}

#[test]
fn negative_capacities_are_refused() {
    let mut c = office();
    assert_eq!(c.SetDefaultCapacity(-1).unwrap_err(), TimeGridError::NegativeCapacity);
    assert_eq!(
        c.AddCapacityOverride(at(2026, 1, 5, 14, 0), at(2026, 1, 5, 16, 0), -2).unwrap_err(),
        TimeGridError::NegativeCapacity
    );
    assert_eq!(
        c.SetCapacityWindow("x".to_string(), at(2026, 1, 5, 14, 0), at(2026, 1, 5, 16, 0), -2).unwrap_err(),
        TimeGridError::NegativeCapacity
    );
    assert_eq!(c.DefaultCapacity(), 1);
    assert_eq!(c.CapacityOverrides().len(), 0);
    assert_eq!(c.Entries().len(), 0);
}

#[test]
fn override_window_must_not_be_reversed() {
    let mut c = office();
    assert_eq!(
        c.AddCapacityOverride(at(2026, 1, 5, 16, 0), at(2026, 1, 5, 14, 0), 2).unwrap_err(),
        TimeGridError::EndBeforeStart
    );
    assert_eq!(c.AddOpenWindow(at(2026, 1, 5, 16, 0), at(2026, 1, 5, 14, 0)).unwrap_err(), TimeGridError::EndBeforeStart);
    assert_eq!(c.AddDowntime(at(2026, 1, 5, 16, 0), at(2026, 1, 5, 14, 0)).unwrap_err(), TimeGridError::EndBeforeStart);
}

#[test]
fn named_entries_replace_by_id() {
    let mut c = office();
    c.SetClosedWindow("offsite".to_string(), at(2026, 1, 7, 13, 0), at(2026, 1, 7, 17, 0)).unwrap();
    assert_eq!(c.GetCapacityAt(at(2026, 1, 7, 14, 0)), 0);
    c.SetClosedWindow("offsite".to_string(), at(2026, 1, 8, 13, 0), at(2026, 1, 8, 17, 0)).unwrap();
    assert_eq!(c.Entries().len(), 1);
    assert_eq!(c.GetCapacityAt(at(2026, 1, 7, 14, 0)), 1);
    assert_eq!(c.GetCapacityAt(at(2026, 1, 8, 14, 0)), 0);
    let e = c.GetEntry("offsite".to_string()).unwrap().unwrap();
    assert_eq!(e.Id(), "offsite");
    assert_eq!(e.Kind(), TimeGridEntryKind::Closed);
    assert_eq!(e.Window().inner, Window { start: at(2026, 1, 8, 13, 0), end: at(2026, 1, 8, 17, 0) });
}

#[test]
fn open_entry_opens_a_weekend() {
    let mut c = office();
    c.SetOpenWindow("saturday".to_string(), at(2026, 1, 10, 8, 0), at(2026, 1, 10, 12, 0)).unwrap();
    assert_eq!(c.GetCapacityAt(at(2026, 1, 10, 9, 0)), 1);
    assert_eq!(c.GetCapacityAt(at(2026, 1, 10, 12, 0)), 0);
}

#[test]
fn blank_entry_ids_are_refused() {
    let mut c = office();
    assert_eq!(
        c.SetOpenWindow(" \t".to_string(), at(2026, 1, 10, 8, 0), at(2026, 1, 10, 12, 0)).unwrap_err(),
        TimeGridError::EmptyEntryId
    );
    assert_eq!(c.GetEntry("".to_string()).unwrap_err(), TimeGridError::EmptyEntryId);
    assert_eq!(c.RemoveEntry("\u{3000}".to_string()).unwrap_err(), TimeGridError::EmptyEntryId);
}

#[test]
fn remove_entry_reports_whether_found() {
    let mut c = office();
    c.SetClosedWindow("a".to_string(), at(2026, 1, 7, 13, 0), at(2026, 1, 7, 17, 0)).unwrap();
    assert_eq!(c.RemoveEntry("a".to_string()), Ok(true));
    assert_eq!(c.RemoveEntry("a".to_string()), Ok(false));
    assert!(c.GetEntry("a".to_string()).unwrap().is_none());
}

#[test]
fn clearing_removes_each_part() {
    let mut c = office();
    c.AddHoliday(date(2026, 1, 6)).unwrap();
    c.ClearBreakRules().unwrap();
    assert_eq!(c.GetCapacityAt(at(2026, 1, 5, 12, 30)), 1);
    c.ClearClosedWindows().unwrap();
    assert_eq!(c.GetCapacityAt(at(2026, 1, 6, 10, 0)), 1);
    c.ClearOpenRules().unwrap();
    assert_eq!(c.GetCapacityAt(at(2026, 1, 6, 10, 0)), 0);
    c.AddOpenWindow(at(2026, 1, 6, 0, 0), at(2026, 1, 7, 0, 0)).unwrap();
    c.ClearOpenWindows().unwrap();
    assert_eq!(c.OpenWindows().len(), 0);
    c.AddCapacityOverride(at(2026, 1, 6, 0, 0), at(2026, 1, 7, 0, 0), 4).unwrap();
    c.ClearCapacityOverrides().unwrap();
    assert_eq!(c.CapacityOverrides().len(), 0);
    c.SetOpenWindow("x".to_string(), at(2026, 1, 6, 0, 0), at(2026, 1, 7, 0, 0)).unwrap();
    c.ClearEntries().unwrap();
    assert_eq!(c.Entries().len(), 0);
    c.SetDefaultCapacity(4).unwrap();
    c.Clear().unwrap();
    assert_eq!(c.DefaultCapacity(), 1);
}

#[test]
fn composite_calendars_are_query_only() {
    let a = office();
    let b = TimeGridCalendar::Window(at(2026, 1, 5, 0, 0), at(2026, 1, 6, 0, 0)).unwrap();
    let mut both = a.And(&b);
    assert!(both.IsComposite());
    assert_eq!(both.Components().len(), 2);
    assert_eq!(both.SetDefaultCapacity(2).unwrap_err(), TimeGridError::CompositeNotEditable);
    assert_eq!(both.AddHoliday(date(2026, 1, 6)).unwrap_err(), TimeGridError::CompositeNotEditable);
    assert_eq!(both.ClearEntries().unwrap_err(), TimeGridError::CompositeNotEditable);
    assert_eq!(both.Clear().unwrap_err(), TimeGridError::CompositeNotEditable);
    assert_eq!(both.RemoveEntry("a".to_string()).unwrap_err(), TimeGridError::CompositeNotEditable);
    assert_eq!(both.ToDefinition().unwrap_err(), TimeGridError::CompositeNotSerializable);
}

#[test]
fn intersection_takes_smallest_capacity() {
    let mut a = office();
    a.SetDefaultCapacity(3).unwrap();
    let mut b = TimeGridCalendar::Window(at(2026, 1, 5, 0, 0), at(2026, 1, 6, 0, 0)).unwrap();
    b.SetDefaultCapacity(2).unwrap();
    let both = TimeGridCalendar::Intersect(vec![a, b]).unwrap();
    assert_eq!(both.GetCapacityAt(at(2026, 1, 5, 10, 0)), 2);
    assert_eq!(both.GetCapacityAt(at(2026, 1, 5, 12, 30)), 0);
    assert_eq!(both.GetCapacityAt(at(2026, 1, 6, 10, 0)), 0);
}

#[test]
fn intersection_of_calendars_at_full_capacity_is_closed() {
    let mut a = TimeGridCalendar::Window(at(2026, 1, 5, 0, 0), at(2026, 1, 6, 0, 0)).unwrap();
    a.SetDefaultCapacity(i32::MAX).unwrap();
    let mut b = TimeGridCalendar::Window(at(2026, 1, 5, 0, 0), at(2026, 1, 6, 0, 0)).unwrap();
    b.SetDefaultCapacity(i32::MAX).unwrap();
    let both = a.And(&b);
    assert_eq!(both.GetCapacityAt(at(2026, 1, 5, 10, 0)), 0);
}

#[test]
fn intersect_needs_a_calendar() {
    assert_eq!(TimeGridCalendar::Intersect(Vec::new()).unwrap_err(), TimeGridError::NoCalendars);
    let single = TimeGridCalendar::Intersect(vec![office()]).unwrap();
    assert!(!single.IsComposite());
    assert_eq!(single.GetCapacityAt(at(2026, 1, 5, 10, 0)), 1);
}

#[test]
fn can_work_over_windows() {
    let c = office();
    let morning = TimeWindow::new(at(2026, 1, 5, 9, 0), at(2026, 1, 5, 12, 0)).unwrap();
    let over_lunch = TimeWindow::new(at(2026, 1, 5, 11, 0), at(2026, 1, 5, 13, 0)).unwrap();
    let empty = TimeWindow::new(at(2026, 1, 5, 12, 30), at(2026, 1, 5, 12, 30)).unwrap();
    assert!(c.CanWork(Target::Window(morning)).unwrap());
    assert!(!c.CanWork(Target::Window(over_lunch)).unwrap());
    assert!(c.CanWork(Target::Window(empty)).unwrap());
    assert!(c.HasCapacity(Target::Window(morning), 1).unwrap());
    assert!(!c.HasCapacity(Target::Window(morning), 2).unwrap());
    assert!(!c.HasCapacity(Target::Instant(at(2026, 1, 5, 10, 0)), 2).unwrap());
    assert_eq!(c.HasCapacity(Target::Window(morning), 0).unwrap_err(), TimeGridError::RequiredCapacityNotPositive);
}

#[test]
fn open_and_unavailable_windows_of_a_day() {
    let c = office();
    let open = c.GetOpenWindows(at(2026, 1, 5, 0, 0), at(2026, 1, 6, 0, 0)).unwrap();
    assert_eq!(
        open,
        vec![
            Window { start: at(2026, 1, 5, 9, 0), end: at(2026, 1, 5, 12, 0) },
            Window { start: at(2026, 1, 5, 13, 0), end: at(2026, 1, 5, 17, 0) },
        ]
    );
    let down = c.GetUnavailableWindows(at(2026, 1, 5, 0, 0), at(2026, 1, 6, 0, 0)).unwrap();
    assert_eq!(
        down,
        vec![
            Window { start: at(2026, 1, 5, 0, 0), end: at(2026, 1, 5, 9, 0) },
            Window { start: at(2026, 1, 5, 12, 0), end: at(2026, 1, 5, 13, 0) },
            Window { start: at(2026, 1, 5, 17, 0), end: at(2026, 1, 6, 0, 0) },
        ]
    );
    assert_eq!(c.GetOpenWindows(at(2026, 1, 6, 0, 0), at(2026, 1, 5, 0, 0)).unwrap_err(), TimeGridError::EndBeforeStart);
    assert_eq!(c.GetUnavailableWindows(at(2026, 1, 5, 0, 0), at(2026, 1, 5, 0, 0)).unwrap(), Vec::new());
}

#[test]
fn capacity_windows_need_positive_capacity() {
    let mut c = office();
    c.AddCapacityOverride(at(2026, 1, 5, 14, 0), at(2026, 1, 5, 16, 0), 5).unwrap();
    let busy = c.GetCapacityWindows(at(2026, 1, 5, 0, 0), at(2026, 1, 6, 0, 0), 3).unwrap();
    assert_eq!(busy, vec![Window { start: at(2026, 1, 5, 14, 0), end: at(2026, 1, 5, 16, 0) }]);
    assert_eq!(
        c.GetCapacityWindows(at(2026, 1, 5, 0, 0), at(2026, 1, 6, 0, 0), 0).unwrap_err(),
        TimeGridError::RequiredCapacityNotPositive
    );
}

#[test]
fn state_windows_split_at_capacity_changes() {
    let mut c = office();
    c.AddCapacityOverride(at(2026, 1, 5, 14, 0), at(2026, 1, 5, 16, 0), 5).unwrap();
    let states = c.GetStateWindows(at(2026, 1, 5, 8, 0), at(2026, 1, 5, 18, 0)).unwrap();
    let got: Vec<(i64, i64, i32)> = states.iter().map(|s| (s.window.start, s.window.end, s.capacity)).collect();
    assert_eq!(
        got,
        vec![
            (at(2026, 1, 5, 8, 0), at(2026, 1, 5, 9, 0), 0),
            (at(2026, 1, 5, 9, 0), at(2026, 1, 5, 12, 0), 1),
            (at(2026, 1, 5, 12, 0), at(2026, 1, 5, 13, 0), 0),
            (at(2026, 1, 5, 13, 0), at(2026, 1, 5, 14, 0), 1),
            (at(2026, 1, 5, 14, 0), at(2026, 1, 5, 16, 0), 5),
            (at(2026, 1, 5, 16, 0), at(2026, 1, 5, 17, 0), 1),
            (at(2026, 1, 5, 17, 0), at(2026, 1, 5, 18, 0), 0),
        ]
    );
}

#[test]
fn composite_state_windows() {
    let a = office();
    let mut b = TimeGridCalendar::Window(at(2026, 1, 5, 10, 0), at(2026, 1, 5, 14, 0)).unwrap();
    b.SetDefaultCapacity(4).unwrap();
    let both = a.And(&b);
    let states = both.GetStateWindows(at(2026, 1, 5, 8, 0), at(2026, 1, 5, 18, 0)).unwrap();
    let got: Vec<(i64, i64, i32)> = states.iter().map(|s| (s.window.start, s.window.end, s.capacity)).collect();
    assert_eq!(
        got,
        vec![
            (at(2026, 1, 5, 8, 0), at(2026, 1, 5, 10, 0), 0),
            (at(2026, 1, 5, 10, 0), at(2026, 1, 5, 12, 0), 1),
            (at(2026, 1, 5, 12, 0), at(2026, 1, 5, 13, 0), 0),
            (at(2026, 1, 5, 13, 0), at(2026, 1, 5, 14, 0), 1),
            (at(2026, 1, 5, 14, 0), at(2026, 1, 5, 18, 0), 0),
        ]
    );
}

#[test]
fn overnight_shift_with_break() {
    let mut c = TimeGridCalendar::Create();
    c.AddOpenRule(DayOfWeek::Friday, hm(22, 0), hm(6, 0)).unwrap();
    c.AddBreakRule(DayOfWeek::Saturday, hm(2, 0), hm(2, 30)).unwrap();
    assert_eq!(c.GetCapacityAt(at(2026, 1, 9, 23, 0)), 1);
    assert_eq!(c.GetCapacityAt(at(2026, 1, 10, 2, 15)), 0);
    assert_eq!(c.GetCapacityAt(at(2026, 1, 10, 3, 0)), 1);
    let open = c.GetOpenWindows(at(2026, 1, 9, 0, 0), at(2026, 1, 11, 0, 0)).unwrap();
    assert_eq!(
        open,
        vec![
            Window { start: at(2026, 1, 9, 22, 0), end: at(2026, 1, 10, 2, 0) },
            Window { start: at(2026, 1, 10, 2, 30), end: at(2026, 1, 10, 6, 0) },
        ]
    );
}

#[test]
fn intersection_has_nothing_of_its_own() {
    let mut a = office();
    a.SetDefaultCapacity(3).unwrap();
    let b = TimeGridCalendar::Window(at(2026, 1, 5, 0, 0), at(2026, 1, 6, 0, 0)).unwrap();
    let both = TimeGridCalendar::Intersect(vec![a.duplicate(), b.duplicate()]).unwrap();
    assert!(both.IsComposite());
    assert_eq!(both.DefaultCapacity(), 1);
    assert!(both.OpenRules().is_empty());
    assert!(both.BreakRules().is_empty());
    assert!(both.OpenWindows().is_empty());
    assert!(both.ClosedWindows().is_empty());
    assert!(both.CapacityOverrides().is_empty());
    assert!(both.Entries().is_empty());
    assert_eq!(both.Components().len(), 2);
    assert_eq!(both.Components()[0].DefaultCapacity(), 3);
    let pair = a.And(&b);
    assert_eq!(pair.DefaultCapacity(), 1);
    assert!(pair.OpenRules().is_empty() && pair.Entries().is_empty());
}

#[test]
fn expanded_rules_come_by_start_then_end() {
    let rules = vec![
        WeeklyRule { day: 1, start: hm(9, 0), end: hm(17, 0) },
        WeeklyRule { day: 1, start: hm(9, 0), end: hm(12, 0) },
        WeeklyRule { day: 1, start: hm(8, 0), end: hm(10, 0) },
        WeeklyRule { day: 2, start: hm(9, 0), end: hm(10, 0) },
    ];
    let query = Window { start: at(2026, 1, 5, 8, 30), end: at(2026, 1, 6, 0, 0) };
    let windows = expand_rules(&rules, query);
    assert_eq!(
        windows,
        vec![
            Window { start: at(2026, 1, 5, 8, 30), end: at(2026, 1, 5, 10, 0) },
            Window { start: at(2026, 1, 5, 9, 0), end: at(2026, 1, 5, 12, 0) },
            Window { start: at(2026, 1, 5, 9, 0), end: at(2026, 1, 5, 17, 0) },
        ]
    );
}

#[test]
fn subtracting_leaves_at_most_two_pieces_in_order() {
    let window = Window { start: 0, end: 100 };
    let mut out = vec![Window { start: -5, end: -1 }];
    subtract_into(window, Window { start: 30, end: 60 }, &mut out);
    assert_eq!(out, vec![Window { start: -5, end: -1 }, Window { start: 0, end: 30 }, Window { start: 60, end: 100 }]);
    let mut out = Vec::new();
    subtract_into(window, Window { start: -10, end: 200 }, &mut out);
    assert!(out.is_empty());
    let mut out = Vec::new();
    subtract_into(window, Window { start: 100, end: 300 }, &mut out);
    assert_eq!(out, vec![window]);
    let mut out = Vec::new();
    subtract_into(window, Window { start: 50, end: 50 }, &mut out);
    assert_eq!(out, vec![Window { start: 0, end: 50 }, Window { start: 50, end: 100 }]);
    let mut out = Vec::new();
    subtract_into(window, Window { start: 0, end: 40 }, &mut out);
    assert_eq!(out, vec![Window { start: 40, end: 100 }]);
}

#[test]
fn merging_merged_windows_changes_nothing() {
    let windows = vec![
        Window { start: 50, end: 60 },
        Window { start: 0, end: 10 },
        Window { start: 5, end: 20 },
        Window { start: 20, end: 30 },
        Window { start: 40, end: 40 },
        Window { start: 55, end: 58 },
    ];
    let once = merge(windows);
    assert_eq!(once, vec![Window { start: 0, end: 30 }, Window { start: 50, end: 60 }]);
    let twice = merge(once.clone());
    assert_eq!(twice, once);
}
