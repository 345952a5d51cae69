use chrono::{Datelike, NaiveDate, NaiveDateTime, Timelike};
use timegrid::error::{ErrorClass, TimeGridError};
use timegrid::time::{
    date_of_instant, day_of_week, duration_to_ticks, instant_at, next_day, time_of_instant, Window,
    MAX_DATE, MAX_INSTANT, MICROS_PER_DAY, MIN_DATE, MIN_INSTANT,
};
use timegrid::TimeWindow;

fn epoch() -> NaiveDate {
    NaiveDate::from_ymd_opt(1970, 1, 1).unwrap()
}

fn micros(dt: NaiveDateTime) -> i64 {
    dt.and_utc().timestamp_micros()
}

#[test]
fn instant_bounds_match_chrono() {
    assert_eq!(MIN_INSTANT, micros(NaiveDateTime::MIN));
    assert_eq!(MAX_INSTANT, micros(NaiveDateTime::MAX));
}

#[test]
fn date_bounds_match_chrono() {
    assert_eq!(MIN_DATE, (NaiveDate::MIN - epoch()).num_days());
    assert_eq!(MAX_DATE, (NaiveDate::MAX - epoch()).num_days());
}

#[test]
fn day_of_week_matches_chrono() {
    let mut date = NaiveDate::from_ymd_opt(1999, 12, 20).unwrap();
    for _ in 0..800 {
        let days = (date - epoch()).num_days();
        assert_eq!(day_of_week(days), date.weekday().num_days_from_sunday() as u8);
        date = date.succ_opt().unwrap();
    }
    let first = (NaiveDate::MIN - epoch()).num_days();
    assert_eq!(day_of_week(first), NaiveDate::MIN.weekday().num_days_from_sunday() as u8);
    let last = (NaiveDate::MAX - epoch()).num_days();
    assert_eq!(day_of_week(last), NaiveDate::MAX.weekday().num_days_from_sunday() as u8);
}

#[test]
fn next_day_wraps_after_saturday() {
    assert_eq!(next_day(0), 1);
    assert_eq!(next_day(5), 6);
    assert_eq!(next_day(6), 0);
}

#[test]
fn date_and_time_split_matches_chrono() {
    let samples = [
        NaiveDateTime::MIN,
        NaiveDateTime::MAX,
        NaiveDate::from_ymd_opt(1969, 12, 31).unwrap().and_hms_micro_opt(23, 59, 59, 999_999).unwrap(),
        NaiveDate::from_ymd_opt(1970, 1, 1).unwrap().and_hms_opt(0, 0, 0).unwrap(),
        NaiveDate::from_ymd_opt(2026, 1, 5).unwrap().and_hms_micro_opt(11, 30, 5, 42).unwrap(),
        NaiveDate::from_ymd_opt(-4000, 3, 1).unwrap().and_hms_opt(6, 0, 0).unwrap(),
    ];
    for dt in samples {
        let t = micros(dt);
        let date = date_of_instant(t);
        let time = time_of_instant(t);
        assert_eq!(date, (dt.date() - epoch()).num_days());
        let expected_time = dt.time().num_seconds_from_midnight() as i64 * 1_000_000
            + (dt.time().nanosecond() / 1000) as i64;
        assert_eq!(time, expected_time);
        assert_eq!(instant_at(date, time), t);
    }
}

#[test]
fn window_new_rejects_reversed_ends() {
    assert_eq!(Window::new(10, 5), Err(TimeGridError::EndBeforeStart));
    assert_eq!(Window::new(5, 5), Ok(Window { start: 5, end: 5 }));
}

#[test]
fn window_is_half_open() {
    let w = TimeWindow::new(10, 20).unwrap();
    assert!(w.Contains(10));
    assert!(w.Contains(19));
    assert!(!w.Contains(20));
    assert!(!w.Contains(9));
    assert_eq!(w.Duration(), 10);
    assert!(!w.IsEmpty());
    assert!(TimeWindow::new(7, 7).unwrap().IsEmpty());
}

#[test]
fn window_overlap_and_intersection() {
    let a = TimeWindow::new(0, 10).unwrap();
    let b = TimeWindow::new(5, 15).unwrap();
    let c = TimeWindow::new(10, 20).unwrap();
    assert!(a.Overlaps(&b));
    assert!(!a.Overlaps(&c));
    assert_eq!(a.Intersect(&b).unwrap().inner, Window { start: 5, end: 10 });
    assert!(a.Intersect(&c).is_none());
    assert_eq!(b.Start(), 5);
    assert_eq!(b.End(), 15);
}

#[test]
fn time_window_new_rejects_reversed_ends() {
    assert_eq!(TimeWindow::new(3, 2).unwrap_err(), TimeGridError::EndBeforeStart);
}

#[test]
fn ticks_are_tenths_of_microseconds() {
    assert_eq!(duration_to_ticks(3_600_000_000), Ok(36_000_000_000));
    assert_eq!(duration_to_ticks(-5), Ok(-50));
    assert_eq!(duration_to_ticks(i64::MAX as i128), Err(TimeGridError::TickOverflow));
    assert_eq!(duration_to_ticks(i64::MAX as i128 + 1), Err(TimeGridError::TickOverflow));
    assert_eq!(duration_to_ticks(i64::MAX as i128 / 10), Ok(i64::MAX / 10 * 10));
}

#[test]
fn micros_per_day() {
    assert_eq!(MICROS_PER_DAY, 86_400_000_000);
}

#[test]
fn error_messages_and_classes() {
    assert_eq!(TimeGridError::EndBeforeStart.message(), "End must be greater than or equal to start.");
    assert_eq!(TimeGridError::EndBeforeStart.class(), ErrorClass::Value);
    assert_eq!(TimeGridError::CompositeNotEditable.class(), ErrorClass::Runtime);
    assert_eq!(TimeGridError::DurationNotFound.class(), ErrorClass::Runtime);
    assert_eq!(TimeGridError::TickOverflow.class(), ErrorClass::Overflow);
    assert_eq!(TimeGridError::DateOverflow.class(), ErrorClass::Overflow);
    assert_eq!(TimeGridError::EmptyJson.message(), "JSON cannot be empty.");
    assert_eq!(TimeGridError::SearchRadiusNotPositive.message(), "Search radius must be positive.");
    assert_eq!(TimeGridError::OutsideTimeline.message(), "Timestamp is outside the compiled timeline.");
}

#[test]
fn an_empty_window_overlaps_nothing() {
    let hour = 3_600_000_000i64;
    let empty = TimeWindow::new(10 * hour, 10 * hour).unwrap();
    let day = TimeWindow::new(9 * hour, 17 * hour).unwrap();
    assert!(!empty.Overlaps(&day));
    assert!(!day.Overlaps(&empty));
    assert!(empty.Intersect(&day).is_none());
    assert!(!empty.Overlaps(&empty));
}

#[test]
fn overlaps_agrees_with_intersect() {
    let pairs = [(0, 10, 5, 15), (0, 10, 10, 20), (3, 3, 0, 10), (0, 10, 2, 4), (4, 9, 0, 5), (5, 5, 5, 5)];
    for (a0, a1, b0, b1) in pairs {
        let a = TimeWindow::new(a0, a1).unwrap();
        let b = TimeWindow::new(b0, b1).unwrap();
        assert_eq!(a.Overlaps(&b), a.Intersect(&b).is_some());
        assert_eq!(a.Overlaps(&b), b.Overlaps(&a));
    }
}
