use chrono::NaiveDate;
use timegrid::definition::{
    CapacityDefinition, Definition, EntryDefinition, RuleDefinition, WindowDefinition,
};
use timegrid::time::Window;
use timegrid::{TimeGridCalendar, TimeGridDefinition, TimeGridError};

fn at(y: i32, m: u32, d: u32, h: u32, mi: u32) -> i64 {
    NaiveDate::from_ymd_opt(y, m, d).unwrap().and_hms_opt(h, mi, 0).unwrap().and_utc().timestamp_micros()
}

fn hm(h: i64, m: i64) -> i64 {
    (h * 60 + m) * 60_000_000
}

fn template() -> TimeGridCalendar {
    let mut c = TimeGridCalendar::Create();
    c.OpenWeekdays(hm(7, 0), hm(19, 0)).unwrap();
    c.BreakWeekdays(hm(12, 0), hm(12, 45)).unwrap();
    c.SetDefaultCapacity(3).unwrap();
    c.Open(at(2026, 1, 10, 8, 0), at(2026, 1, 10, 12, 0)).unwrap();
    c.Down(at(2026, 1, 6, 8, 0), at(2026, 1, 6, 9, 0)).unwrap();
    c.AddCapacityOverride(at(2026, 1, 7, 8, 0), at(2026, 1, 7, 9, 0), 6).unwrap();
    c.SetClosedWindow("maintenance".to_string(), at(2026, 1, 5, 15, 0), at(2026, 1, 5, 17, 0)).unwrap();
    c.SetCapacityWindow("overtime".to_string(), at(2026, 1, 5, 17, 0), at(2026, 1, 5, 19, 0), 5).unwrap();
    c
}

fn empty_definition() -> Definition {
    Definition {
        default_capacity: 1,
        open_rules: Vec::new(),
        break_rules: Vec::new(),
        open_windows: Vec::new(),
        closed_windows: Vec::new(),
        capacity_windows: Vec::new(),
        entries: Vec::new(),
    }
}

#[test]
fn definition_lists_the_calendar() {
    let d = template().ToDefinition().unwrap();
    assert_eq!(d.inner.default_capacity, 3);
    assert_eq!(d.inner.open_rules.len(), 5);
    assert_eq!(d.inner.open_rules[0], RuleDefinition { day: 1, start: hm(7, 0), end: hm(19, 0) });
    assert_eq!(d.inner.break_rules[4], RuleDefinition { day: 5, start: hm(12, 0), end: hm(12, 45) });
    assert_eq!(d.inner.open_windows, vec![WindowDefinition { start: at(2026, 1, 10, 8, 0), end: at(2026, 1, 10, 12, 0) }]);
    assert_eq!(d.inner.closed_windows, vec![WindowDefinition { start: at(2026, 1, 6, 8, 0), end: at(2026, 1, 6, 9, 0) }]);
    assert_eq!(
        d.inner.capacity_windows,
        vec![CapacityDefinition { start: at(2026, 1, 7, 8, 0), end: at(2026, 1, 7, 9, 0), capacity: 6 }]
    );
    assert_eq!(d.inner.entries.len(), 2);
    assert_eq!(d.inner.entries[1].id, "overtime");
    assert_eq!(d.inner.entries[1].kind, 2);
    assert_eq!(d.inner.entries[1].capacity, 5);
}

#[test]
fn definition_round_trip_keeps_the_calendar() {
    let calendar = template();
    let d = calendar.ToDefinition().unwrap();
    let back = TimeGridCalendar::FromDefinition(&d).unwrap();
    assert_eq!(back.DefaultCapacity(), calendar.DefaultCapacity());
    assert_eq!(back.OpenRules(), calendar.OpenRules());
    assert_eq!(back.BreakRules(), calendar.BreakRules());
    assert_eq!(back.OpenWindows(), calendar.OpenWindows());
    assert_eq!(back.ClosedWindows(), calendar.ClosedWindows());
    assert_eq!(back.CapacityOverrides(), calendar.CapacityOverrides());
    let ids: Vec<String> = back.Entries().iter().map(|e| e.Id()).collect();
    assert_eq!(ids, vec!["maintenance".to_string(), "overtime".to_string()]);
    let mut t = at(2026, 1, 4, 0, 0);
    while t < at(2026, 1, 12, 0, 0) {
        assert_eq!(back.GetCapacityAt(t), calendar.GetCapacityAt(t));
        t += hm(0, 30);
    }
}

#[test]
fn definition_to_calendar_applies_entries_in_order() {
    let mut d = empty_definition();
    d.entries.push(EntryDefinition { id: "a".to_string(), kind: 0, start: at(2026, 1, 5, 8, 0), end: at(2026, 1, 5, 9, 0), capacity: 0 });
    d.entries.push(EntryDefinition { id: "a".to_string(), kind: 0, start: at(2026, 1, 6, 8, 0), end: at(2026, 1, 6, 9, 0), capacity: 0 });
    let c = TimeGridDefinition { inner: d }.ToCalendar().unwrap();
    assert_eq!(c.Entries().len(), 1);
    assert_eq!(c.GetCapacityAt(at(2026, 1, 5, 8, 30)), 0);
    assert_eq!(c.GetCapacityAt(at(2026, 1, 6, 8, 30)), 1);
}

#[test]
fn definition_errors_come_in_order() {
    let mut d = empty_definition();
    d.default_capacity = -1;
    d.open_rules.push(RuleDefinition { day: 9, start: hm(7, 0), end: hm(8, 0) });
    assert_eq!(TimeGridDefinition { inner: d }.ToCalendar().unwrap_err(), TimeGridError::NegativeCapacity);

    let mut d = empty_definition();
    d.open_rules.push(RuleDefinition { day: 1, start: hm(7, 0), end: hm(8, 0) });
    d.open_rules.push(RuleDefinition { day: 9, start: hm(7, 0), end: hm(8, 0) });
    d.break_rules.push(RuleDefinition { day: 1, start: hm(7, 0), end: hm(7, 0) });
    assert_eq!(TimeGridDefinition { inner: d }.ToCalendar().unwrap_err(), TimeGridError::DayOutOfRange);

    let mut d = empty_definition();
    d.break_rules.push(RuleDefinition { day: 1, start: hm(7, 0), end: hm(7, 0) });
    assert_eq!(TimeGridDefinition { inner: d }.ToCalendar().unwrap_err(), TimeGridError::SameStartAndEnd);

    let mut d = empty_definition();
    d.closed_windows.push(WindowDefinition { start: at(2026, 1, 6, 0, 0), end: at(2026, 1, 5, 0, 0) });
    assert_eq!(TimeGridDefinition { inner: d }.ToCalendar().unwrap_err(), TimeGridError::EndBeforeStart);

    let mut d = empty_definition();
    d.capacity_windows.push(CapacityDefinition { start: at(2026, 1, 6, 0, 0), end: at(2026, 1, 5, 0, 0), capacity: -3 });
    assert_eq!(TimeGridDefinition { inner: d }.ToCalendar().unwrap_err(), TimeGridError::NegativeCapacity);

    let mut d = empty_definition();
    d.entries.push(EntryDefinition { id: "  ".to_string(), kind: 1, start: at(2026, 1, 5, 8, 0), end: at(2026, 1, 5, 9, 0), capacity: 0 });
    assert_eq!(TimeGridDefinition { inner: d }.ToCalendar().unwrap_err(), TimeGridError::EmptyEntryId);
}

#[test]
fn definition_json_must_not_be_blank() {
    assert_eq!(TimeGridDefinition::check_json(""), Err(TimeGridError::EmptyJson));
    assert_eq!(TimeGridDefinition::check_json(" \n\t\u{a0}"), Err(TimeGridError::EmptyJson));
    assert_eq!(TimeGridDefinition::check_json("{}"), Ok(()));
}

#[test]
fn composite_has_no_definition() {
    let c = template().And(&template());
    assert_eq!(c.ToDefinition().unwrap_err(), TimeGridError::CompositeNotSerializable);
}

#[test]
fn calendar_from_definition_window() {
    let mut d = empty_definition();
    d.open_windows.push(WindowDefinition { start: at(2026, 1, 5, 0, 0), end: at(2026, 1, 6, 0, 0) });
    let c = TimeGridCalendar::FromDefinition(&TimeGridDefinition { inner: d }).unwrap();
    assert_eq!(c.OpenWindows()[0].inner, Window { start: at(2026, 1, 5, 0, 0), end: at(2026, 1, 6, 0, 0) });
    assert_eq!(c.GetCapacityAt(at(2026, 1, 5, 10, 0)), 1);
}
