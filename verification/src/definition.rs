//! The definition of a calendar as plain data: its default capacity, rules,
//! windows, capacity windows and entries, and the two conversions between a
//! calendar and its definition.
use vstd::prelude::*;
use crate::error::TimeGridError;
use crate::time::{Window, valid_instant, valid_time};
use crate::rules::{WeeklyRule, rule_error, valid_rule};
use crate::calendar::{
    Calendar, CapacityWindow, Entry, wf, own_wf, composite, same_calendar, entries_with, entry_error,
    position_of, lemma_position_of, distinct_ids, valid_entry, valid_override, capacity_at, entry_kind_has,
};
use crate::text::blank;

verus! {

broadcast use vstd::seq_lib::group_seq_properties;

/// A weekly rule as data.
#[derive(Clone, Copy, Debug, PartialEq, Eq, Structural)]
pub struct RuleDefinition {
    pub day: u8,
    pub start: i64,
    pub end: i64,
}

/// A dated window as data.
#[derive(Clone, Copy, Debug, PartialEq, Eq, Structural)]
pub struct WindowDefinition {
    pub start: i64,
    pub end: i64,
}

/// A capacity window as data.
#[derive(Clone, Copy, Debug, PartialEq, Eq, Structural)]
pub struct CapacityDefinition {
    pub start: i64,
    pub end: i64,
    pub capacity: i32,
}

/// A named entry as data.
#[derive(Debug)]
pub struct EntryDefinition {
    pub id: String,
    pub kind: u8,
    pub start: i64,
    pub end: i64,
    pub capacity: i32,
}

/// The definition of a calendar without components.
#[derive(Debug)]
pub struct Definition {
    pub default_capacity: i32,
    pub open_rules: Vec<RuleDefinition>,
    pub break_rules: Vec<RuleDefinition>,
    pub open_windows: Vec<WindowDefinition>,
    pub closed_windows: Vec<WindowDefinition>,
    pub capacity_windows: Vec<CapacityDefinition>,
    pub entries: Vec<EntryDefinition>,
}

pub open spec fn rule_def(r: WeeklyRule) -> RuleDefinition {
    RuleDefinition { day: r.day, start: r.start, end: r.end }
}

pub open spec fn rule_of(d: RuleDefinition) -> WeeklyRule {
    WeeklyRule { day: d.day, start: d.start, end: d.end }
}

pub open spec fn window_def(w: Window) -> WindowDefinition {
    WindowDefinition { start: w.start, end: w.end }
}

pub open spec fn window_of(d: WindowDefinition) -> Window {
    Window { start: d.start, end: d.end }
}

pub open spec fn capacity_def(c: CapacityWindow) -> CapacityDefinition {
    CapacityDefinition { start: c.window.start, end: c.window.end, capacity: c.capacity }
}

pub open spec fn capacity_of(d: CapacityDefinition) -> CapacityWindow {
    CapacityWindow { window: Window { start: d.start, end: d.end }, capacity: d.capacity }
}

pub open spec fn entry_def(e: Entry) -> EntryDefinition {
    EntryDefinition { id: e.id, kind: e.kind, start: e.window.start, end: e.window.end, capacity: e.capacity }
}

pub open spec fn entry_of(d: EntryDefinition) -> Entry {
    Entry { id: d.id, kind: d.kind, window: Window { start: d.start, end: d.end }, capacity: d.capacity }
}

/// The first error of a list of checks, in order.
pub open spec fn first_error(errs: Seq<Option<TimeGridError>>) -> Option<TimeGridError>
    decreases errs.len(),
{
    if errs.len() == 0 {
        None
    } else {
        match first_error(errs.drop_last()) {
            Some(e) => Some(e),
            None => errs.last(),
        }
    }
}

/// When the checks before position `i` pass, the check at `i` decides whether
/// the first `i + 1` pass, and when it fails it is the first error of the whole list.
pub proof fn lemma_first_error(errs: Seq<Option<TimeGridError>>, i: int)
    requires
        0 <= i < errs.len(),
        first_error(errs.take(i)) is None,
    ensures
        errs[i] is None ==> first_error(errs.take(i + 1)) is None,
        errs[i] is Some ==> first_error(errs) == errs[i],
    decreases errs.len() - i,
{
    assert(errs.take(i + 1).drop_last() =~= errs.take(i));
    if errs[i] is Some {
        if i + 1 < errs.len() {
            lemma_first_error_stays(errs, i + 1, errs.len() as int);
            assert(errs.take(errs.len() as int) =~= errs);
        } else {
            assert(errs.take(i + 1) =~= errs);
        }
    }
}

/// Once some check of a prefix fails, longer prefixes fail with the same error.
proof fn lemma_first_error_stays(errs: Seq<Option<TimeGridError>>, i: int, j: int)
    requires
        0 < i <= j <= errs.len(),
        first_error(errs.take(i)) is Some,
    ensures
        first_error(errs.take(j)) == first_error(errs.take(i)),
    decreases j - i,
{
    if j > i {
        lemma_first_error_stays(errs, i, j - 1);
        assert(errs.take(j).drop_last() =~= errs.take(j - 1));
    }
}

pub open spec fn rule_errors(rs: Seq<RuleDefinition>) -> Seq<Option<TimeGridError>> {
    rs.map_values(|d: RuleDefinition| rule_error(d.day, d.start, d.end))
}

pub open spec fn window_errors(ws: Seq<WindowDefinition>) -> Seq<Option<TimeGridError>> {
    ws.map_values(
        |d: WindowDefinition|
            if d.end < d.start {
                Some(TimeGridError::EndBeforeStart)
            } else {
                None
            },
    )
}

pub open spec fn capacity_errors(cs: Seq<CapacityDefinition>) -> Seq<Option<TimeGridError>> {
    cs.map_values(
        |d: CapacityDefinition|
            if d.capacity < 0 {
                Some(TimeGridError::NegativeCapacity)
            } else if d.end < d.start {
                Some(TimeGridError::EndBeforeStart)
            } else {
                None
            },
    )
}

pub open spec fn entry_errors(es: Seq<EntryDefinition>) -> Seq<Option<TimeGridError>> {
    es.map_values(|d: EntryDefinition| entry_error(d.id@, d.kind, d.start, d.end, d.capacity))
}

/// Why a definition does not make a calendar: the first refused value, in the
/// order default capacity, open rules, break rules, open windows, closed
/// windows, capacity windows, entries.
pub open spec fn definition_error(d: Definition) -> Option<TimeGridError> {
    if d.default_capacity < 0 {
        Some(TimeGridError::NegativeCapacity)
    } else if first_error(rule_errors(d.open_rules@)) is Some {
        first_error(rule_errors(d.open_rules@))
    } else if first_error(rule_errors(d.break_rules@)) is Some {
        first_error(rule_errors(d.break_rules@))
    } else if first_error(window_errors(d.open_windows@)) is Some {
        first_error(window_errors(d.open_windows@))
    } else if first_error(window_errors(d.closed_windows@)) is Some {
        first_error(window_errors(d.closed_windows@))
    } else if first_error(capacity_errors(d.capacity_windows@)) is Some {
        first_error(capacity_errors(d.capacity_windows@))
    } else {
        first_error(entry_errors(d.entries@))
    }
}

/// Every time of day and instant of the definition is representable.
pub open spec fn definition_in_range(d: Definition) -> bool {
    &&& forall|i: int| 0 <= i < d.open_rules@.len() ==> valid_time((#[trigger] d.open_rules@[i]).start as int)
        && valid_time(d.open_rules@[i].end as int)
    &&& forall|i: int| 0 <= i < d.break_rules@.len() ==> valid_time((#[trigger] d.break_rules@[i]).start as int)
        && valid_time(d.break_rules@[i].end as int)
    &&& forall|i: int| 0 <= i < d.open_windows@.len() ==> valid_instant((#[trigger] d.open_windows@[i]).start as int)
        && valid_instant(d.open_windows@[i].end as int)
    &&& forall|i: int| 0 <= i < d.closed_windows@.len() ==> valid_instant((#[trigger] d.closed_windows@[i]).start as int)
        && valid_instant(d.closed_windows@[i].end as int)
    &&& forall|i: int| 0 <= i < d.capacity_windows@.len() ==> valid_instant((#[trigger] d.capacity_windows@[i]).start as int)
        && valid_instant(d.capacity_windows@[i].end as int)
    &&& forall|i: int| 0 <= i < d.entries@.len() ==> valid_instant((#[trigger] d.entries@[i]).start as int)
        && valid_instant(d.entries@[i].end as int)
}

/// The entries after setting each entry definition in turn.
pub open spec fn entries_set(ds: Seq<EntryDefinition>) -> Seq<Entry>
    decreases ds.len(),
{
    if ds.len() == 0 {
        Seq::empty()
    } else {
        entries_with(entries_set(ds.drop_last()), entry_of(ds.last()))
    }
}

/// The calendar that a definition without errors makes.
pub open spec fn defined_calendar(c: Calendar, d: Definition) -> bool {
    &&& !composite(c)
    &&& c.default_capacity == d.default_capacity
    &&& c.open_rules@ == d.open_rules@.map_values(|r: RuleDefinition| rule_of(r))
    &&& c.break_rules@ == d.break_rules@.map_values(|r: RuleDefinition| rule_of(r))
    &&& c.open_windows@ == d.open_windows@.map_values(|w: WindowDefinition| window_of(w))
    &&& c.closed_windows@ == d.closed_windows@.map_values(|w: WindowDefinition| window_of(w))
    &&& c.capacity_overrides@ == d.capacity_windows@.map_values(|w: CapacityDefinition| capacity_of(w))
    &&& c.entries@ == entries_set(d.entries@)
}

/// The definition that describes a calendar's own rules and windows.
pub open spec fn describes(d: Definition, c: Calendar) -> bool {
    &&& d.default_capacity == c.default_capacity
    &&& d.open_rules@ == c.open_rules@.map_values(|r: WeeklyRule| rule_def(r))
    &&& d.break_rules@ == c.break_rules@.map_values(|r: WeeklyRule| rule_def(r))
    &&& d.open_windows@ == c.open_windows@.map_values(|w: Window| window_def(w))
    &&& d.closed_windows@ == c.closed_windows@.map_values(|w: Window| window_def(w))
    &&& d.capacity_windows@ == c.capacity_overrides@.map_values(|w: CapacityWindow| capacity_def(w))
    &&& d.entries@ == c.entries@.map_values(|e: Entry| entry_def(e))
}

/// `c` holds the default capacity and the first `n` values of each list of
/// `d`, as the conversion builds it.
pub open spec fn built_upto(c: Calendar, d: Definition, n: (int, int, int, int, int, int)) -> bool {
    &&& wf(c)
    &&& !composite(c)
    &&& c.default_capacity == d.default_capacity
    &&& c.open_rules@ == d.open_rules@.take(n.0).map_values(|r: RuleDefinition| rule_of(r))
    &&& c.break_rules@ == d.break_rules@.take(n.1).map_values(|r: RuleDefinition| rule_of(r))
    &&& c.open_windows@ == d.open_windows@.take(n.2).map_values(|w: WindowDefinition| window_of(w))
    &&& c.closed_windows@ == d.closed_windows@.take(n.3).map_values(|w: WindowDefinition| window_of(w))
    &&& c.capacity_overrides@ == d.capacity_windows@.take(n.4).map_values(|w: CapacityDefinition| capacity_of(w))
    &&& c.entries@ == entries_set(d.entries@.take(n.5))
}

/// The first `n` values of each list of `d` pass their checks, as does the default capacity.
pub open spec fn clear_upto(d: Definition, n: (int, int, int, int, int, int)) -> bool {
    &&& d.default_capacity >= 0
    &&& first_error(rule_errors(d.open_rules@).take(n.0)) is None
    &&& first_error(rule_errors(d.break_rules@).take(n.1)) is None
    &&& first_error(window_errors(d.open_windows@).take(n.2)) is None
    &&& first_error(window_errors(d.closed_windows@).take(n.3)) is None
    &&& first_error(capacity_errors(d.capacity_windows@).take(n.4)) is None
    &&& first_error(entry_errors(d.entries@).take(n.5)) is None
}

fn rules_to_definitions(rules: &Vec<WeeklyRule>) -> (r: Vec<RuleDefinition>)
    ensures
        r@ == rules@.map_values(|r: WeeklyRule| rule_def(r)),
{
    let mut result: Vec<RuleDefinition> = Vec::new();
    let mut i: usize = 0;
    while i < rules.len()
        invariant
            i <= rules@.len(),
            result@ == rules@.take(i as int).map_values(|r: WeeklyRule| rule_def(r)),
        decreases rules@.len() - i,
    {
        let rule = rules[i];
        result.push(RuleDefinition { day: rule.day, start: rule.start, end: rule.end });
        proof {
            assert(rules@.take(i + 1).map_values(|r: WeeklyRule| rule_def(r)) =~= rules@.take(i as int).map_values(
                |r: WeeklyRule| rule_def(r),
            ).push(rule_def(rule)));
        }
        i = i + 1;
    }
    proof {
        assert(rules@.take(rules@.len() as int) =~= rules@);
    }
    result
}

fn windows_to_definitions(windows: &Vec<Window>) -> (r: Vec<WindowDefinition>)
    ensures
        r@ == windows@.map_values(|w: Window| window_def(w)),
{
    let mut result: Vec<WindowDefinition> = Vec::new();
    let mut i: usize = 0;
    while i < windows.len()
        invariant
            i <= windows@.len(),
            result@ == windows@.take(i as int).map_values(|w: Window| window_def(w)),
        decreases windows@.len() - i,
    {
        let w = windows[i];
        result.push(WindowDefinition { start: w.start, end: w.end });
        proof {
            assert(windows@.take(i + 1).map_values(|w: Window| window_def(w)) =~= windows@.take(i as int).map_values(
                |w: Window| window_def(w),
            ).push(window_def(w)));
        }
        i = i + 1;
    }
    proof {
        assert(windows@.take(windows@.len() as int) =~= windows@);
    }
    result
}

fn capacities_to_definitions(windows: &Vec<CapacityWindow>) -> (r: Vec<CapacityDefinition>)
    ensures
        r@ == windows@.map_values(|w: CapacityWindow| capacity_def(w)),
{
    let mut result: Vec<CapacityDefinition> = Vec::new();
    let mut i: usize = 0;
    while i < windows.len()
        invariant
            i <= windows@.len(),
            result@ == windows@.take(i as int).map_values(|w: CapacityWindow| capacity_def(w)),
        decreases windows@.len() - i,
    {
        let w = windows[i];
        result.push(CapacityDefinition { start: w.window.start, end: w.window.end, capacity: w.capacity });
        proof {
            assert(windows@.take(i + 1).map_values(|w: CapacityWindow| capacity_def(w)) =~= windows@.take(
                i as int,
            ).map_values(|w: CapacityWindow| capacity_def(w)).push(capacity_def(w)));
        }
        i = i + 1;
    }
    proof {
        assert(windows@.take(windows@.len() as int) =~= windows@);
    }
    result
}

fn entries_to_definitions(entries: &Vec<Entry>) -> (r: Vec<EntryDefinition>)
    ensures
        r@ == entries@.map_values(|e: Entry| entry_def(e)),
{
    let mut result: Vec<EntryDefinition> = Vec::new();
    let mut i: usize = 0;
    while i < entries.len()
        invariant
            i <= entries@.len(),
            result@ == entries@.take(i as int).map_values(|e: Entry| entry_def(e)),
        decreases entries@.len() - i,
    {
        let e = &entries[i];
        result.push(
            EntryDefinition {
                id: e.id.clone(),
                kind: e.kind,
                start: e.window.start,
                end: e.window.end,
                capacity: e.capacity,
            },
        );
        proof {
            assert(entries@.take(i + 1).map_values(|e: Entry| entry_def(e)) =~= entries@.take(i as int).map_values(
                |e: Entry| entry_def(e),
            ).push(entry_def(entries@[i as int])));
        }
        i = i + 1;
    }
    proof {
        assert(entries@.take(entries@.len() as int) =~= entries@);
    }
    result
}

impl Definition {
    /// The definition of a calendar's own rules, windows and entries.
    pub fn from_calendar(calendar: &Calendar) -> (d: Definition)
        ensures
            describes(d, *calendar),
    {
        Definition {
            default_capacity: calendar.default_capacity,
            open_rules: rules_to_definitions(&calendar.open_rules),
            break_rules: rules_to_definitions(&calendar.break_rules),
            open_windows: windows_to_definitions(&calendar.open_windows),
            closed_windows: windows_to_definitions(&calendar.closed_windows),
            capacity_windows: capacities_to_definitions(&calendar.capacity_overrides),
            entries: entries_to_definitions(&calendar.entries),
        }
    }

    /// The calendar the definition describes; fails with the first value that
    /// a calendar refuses.
    pub fn to_calendar(&self) -> (r: Result<Calendar, TimeGridError>)
        requires
            definition_in_range(*self),
        ensures
            r is Ok <==> definition_error(*self) is None,
            r matches Err(e) ==> definition_error(*self) == Some(e),
            r matches Ok(c) ==> wf(c) && defined_calendar(c, *self),
    {
        let mut calendar = Calendar::new_default();
        match calendar.set_default_capacity(self.default_capacity) {
            Ok(()) => {},
            Err(e) => {
                return Err(e);
            },
        }
        let ghost d = *self;
        let ghost n_open = self.open_rules@.len() as int;
        let ghost n_break = self.break_rules@.len() as int;
        let ghost n_ow = self.open_windows@.len() as int;
        let ghost n_cw = self.closed_windows@.len() as int;
        let ghost n_cap = self.capacity_windows@.len() as int;
        let ghost n_ent = self.entries@.len() as int;
        proof {
            assert(calendar.open_rules@ =~= d.open_rules@.take(0).map_values(|r: RuleDefinition| rule_of(r)));
            assert(calendar.break_rules@ =~= d.break_rules@.take(0).map_values(|r: RuleDefinition| rule_of(r)));
            assert(calendar.open_windows@ =~= d.open_windows@.take(0).map_values(|w: WindowDefinition| window_of(w)));
            assert(calendar.closed_windows@ =~= d.closed_windows@.take(0).map_values(|w: WindowDefinition| window_of(w)));
            assert(calendar.capacity_overrides@ =~= d.capacity_windows@.take(0).map_values(
                |w: CapacityDefinition| capacity_of(w),
            ));
            assert(d.entries@.take(0) =~= Seq::<EntryDefinition>::empty());
            assert(calendar.entries@ =~= entries_set(d.entries@.take(0)));
            assert(rule_errors(d.open_rules@).take(0) =~= Seq::<Option<TimeGridError>>::empty());
            assert(rule_errors(d.break_rules@).take(0) =~= Seq::<Option<TimeGridError>>::empty());
            assert(window_errors(d.open_windows@).take(0) =~= Seq::<Option<TimeGridError>>::empty());
            assert(window_errors(d.closed_windows@).take(0) =~= Seq::<Option<TimeGridError>>::empty());
            assert(capacity_errors(d.capacity_windows@).take(0) =~= Seq::<Option<TimeGridError>>::empty());
            assert(entry_errors(d.entries@).take(0) =~= Seq::<Option<TimeGridError>>::empty());
        }
        let mut i: usize = 0;
        while i < self.open_rules.len()
            invariant
                d == *self,
                definition_in_range(d),
                0 <= i <= n_open,
                n_open == d.open_rules@.len(),
                built_upto(calendar, d, (i as int, 0, 0, 0, 0, 0)),
                clear_upto(d, (i as int, 0, 0, 0, 0, 0)),
            decreases n_open - i,
        {
            let rule = self.open_rules[i];
            proof {
                lemma_first_error(rule_errors(d.open_rules@), i as int);
            }
            match calendar.add_open_rule(rule.day, rule.start, rule.end) {
                Ok(()) => {},
                Err(e) => {
                    return Err(e);
                },
            }
            proof {
                assert(d.open_rules@.take(i + 1).map_values(|r: RuleDefinition| rule_of(r)) =~= d.open_rules@.take(
                    i as int,
                ).map_values(|r: RuleDefinition| rule_of(r)).push(rule_of(rule)));
            }
            i = i + 1;
        }
        proof {
            assert(rule_errors(d.open_rules@).take(n_open) =~= rule_errors(d.open_rules@));
        }
        let mut i: usize = 0;
        while i < self.break_rules.len()
            invariant
                d == *self,
                definition_in_range(d),
                0 <= i <= n_break,
                n_open == d.open_rules@.len(),
                n_break == d.break_rules@.len(),
                first_error(rule_errors(d.open_rules@)) is None,
                built_upto(calendar, d, (n_open, i as int, 0, 0, 0, 0)),
                clear_upto(d, (n_open, i as int, 0, 0, 0, 0)),
            decreases n_break - i,
        {
            let rule = self.break_rules[i];
            proof {
                lemma_first_error(rule_errors(d.break_rules@), i as int);
            }
            match calendar.add_break_rule(rule.day, rule.start, rule.end) {
                Ok(()) => {},
                Err(e) => {
                    return Err(e);
                },
            }
            proof {
                assert(d.break_rules@.take(i + 1).map_values(|r: RuleDefinition| rule_of(r)) =~= d.break_rules@.take(
                    i as int,
                ).map_values(|r: RuleDefinition| rule_of(r)).push(rule_of(rule)));
            }
            i = i + 1;
        }
        proof {
            assert(rule_errors(d.break_rules@).take(n_break) =~= rule_errors(d.break_rules@));
        }
        let mut i: usize = 0;
        while i < self.open_windows.len()
            invariant
                d == *self,
                definition_in_range(d),
                0 <= i <= n_ow,
                n_open == d.open_rules@.len(),
                n_break == d.break_rules@.len(),
                n_ow == d.open_windows@.len(),
                first_error(rule_errors(d.open_rules@)) is None,
                first_error(rule_errors(d.break_rules@)) is None,
                built_upto(calendar, d, (n_open, n_break, i as int, 0, 0, 0)),
                clear_upto(d, (n_open, n_break, i as int, 0, 0, 0)),
            decreases n_ow - i,
        {
            let w = self.open_windows[i];
            proof {
                lemma_first_error(window_errors(d.open_windows@), i as int);
            }
            match calendar.add_open_window(w.start, w.end) {
                Ok(()) => {},
                Err(e) => {
                    return Err(e);
                },
            }
            proof {
                assert(d.open_windows@.take(i + 1).map_values(|w: WindowDefinition| window_of(w)) =~= d.open_windows@.take(
                    i as int,
                ).map_values(|w: WindowDefinition| window_of(w)).push(window_of(w)));
            }
            i = i + 1;
        }
        proof {
            assert(window_errors(d.open_windows@).take(n_ow) =~= window_errors(d.open_windows@));
        }
        let mut i: usize = 0;
        while i < self.closed_windows.len()
            invariant
                d == *self,
                definition_in_range(d),
                0 <= i <= n_cw,
                n_open == d.open_rules@.len(),
                n_break == d.break_rules@.len(),
                n_ow == d.open_windows@.len(),
                n_cw == d.closed_windows@.len(),
                first_error(rule_errors(d.open_rules@)) is None,
                first_error(rule_errors(d.break_rules@)) is None,
                first_error(window_errors(d.open_windows@)) is None,
                built_upto(calendar, d, (n_open, n_break, n_ow, i as int, 0, 0)),
                clear_upto(d, (n_open, n_break, n_ow, i as int, 0, 0)),
            decreases n_cw - i,
        {
            let w = self.closed_windows[i];
            proof {
                lemma_first_error(window_errors(d.closed_windows@), i as int);
            }
            match calendar.add_closed_window(w.start, w.end) {
                Ok(()) => {},
                Err(e) => {
                    return Err(e);
                },
            }
            proof {
                assert(d.closed_windows@.take(i + 1).map_values(|w: WindowDefinition| window_of(w)) =~= d.closed_windows@.take(
                    i as int,
                ).map_values(|w: WindowDefinition| window_of(w)).push(window_of(w)));
            }
            i = i + 1;
        }
        proof {
            assert(window_errors(d.closed_windows@).take(n_cw) =~= window_errors(d.closed_windows@));
        }
        let mut i: usize = 0;
        while i < self.capacity_windows.len()
            invariant
                d == *self,
                definition_in_range(d),
                0 <= i <= n_cap,
                n_open == d.open_rules@.len(),
                n_break == d.break_rules@.len(),
                n_ow == d.open_windows@.len(),
                n_cw == d.closed_windows@.len(),
                n_cap == d.capacity_windows@.len(),
                first_error(rule_errors(d.open_rules@)) is None,
                first_error(rule_errors(d.break_rules@)) is None,
                first_error(window_errors(d.open_windows@)) is None,
                first_error(window_errors(d.closed_windows@)) is None,
                built_upto(calendar, d, (n_open, n_break, n_ow, n_cw, i as int, 0)),
                clear_upto(d, (n_open, n_break, n_ow, n_cw, i as int, 0)),
            decreases n_cap - i,
        {
            let w = self.capacity_windows[i];
            proof {
                lemma_first_error(capacity_errors(d.capacity_windows@), i as int);
            }
            match calendar.add_capacity_override(w.start, w.end, w.capacity) {
                Ok(()) => {},
                Err(e) => {
                    return Err(e);
                },
            }
            proof {
                assert(d.capacity_windows@.take(i + 1).map_values(|w: CapacityDefinition| capacity_of(w)) =~= d.capacity_windows@.take(
                    i as int,
                ).map_values(|w: CapacityDefinition| capacity_of(w)).push(capacity_of(w)));
            }
            i = i + 1;
        }
        proof {
            assert(capacity_errors(d.capacity_windows@).take(n_cap) =~= capacity_errors(d.capacity_windows@));
        }
        let mut i: usize = 0;
        while i < self.entries.len()
            invariant
                d == *self,
                definition_in_range(d),
                0 <= i <= n_ent,
                n_open == d.open_rules@.len(),
                n_break == d.break_rules@.len(),
                n_ow == d.open_windows@.len(),
                n_cw == d.closed_windows@.len(),
                n_cap == d.capacity_windows@.len(),
                n_ent == d.entries@.len(),
                first_error(rule_errors(d.open_rules@)) is None,
                first_error(rule_errors(d.break_rules@)) is None,
                first_error(window_errors(d.open_windows@)) is None,
                first_error(window_errors(d.closed_windows@)) is None,
                first_error(capacity_errors(d.capacity_windows@)) is None,
                built_upto(calendar, d, (n_open, n_break, n_ow, n_cw, n_cap, i as int)),
                clear_upto(d, (n_open, n_break, n_ow, n_cw, n_cap, i as int)),
            decreases n_ent - i,
        {
            let e = &self.entries[i];
            proof {
                lemma_first_error(entry_errors(d.entries@), i as int);
            }
            match calendar.set_entry(e.id.clone(), e.kind, e.start, e.end, e.capacity) {
                Ok(()) => {},
                Err(err) => {
                    return Err(err);
                },
            }
            proof {
                assert(d.entries@.take(i + 1).drop_last() =~= d.entries@.take(i as int));
                assert(d.entries@.take(i + 1).last() == d.entries@[i as int]);
            }
            i = i + 1;
        }
        proof {
            assert(entry_errors(d.entries@).take(n_ent) =~= entry_errors(d.entries@));
            assert(d.open_rules@.take(n_open) =~= d.open_rules@);
            assert(d.break_rules@.take(n_break) =~= d.break_rules@);
            assert(d.open_windows@.take(n_ow) =~= d.open_windows@);
            assert(d.closed_windows@.take(n_cw) =~= d.closed_windows@);
            assert(d.capacity_windows@.take(n_cap) =~= d.capacity_windows@);
            assert(d.entries@.take(n_ent) =~= d.entries@);
        }
        Ok(calendar)
    }
}

/// A list of checks that all pass has no first error.
proof fn lemma_first_error_none(errs: Seq<Option<TimeGridError>>)
    requires
        forall|i: int| 0 <= i < errs.len() ==> (#[trigger] errs[i]) is None,
    ensures
        first_error(errs) is None,
    decreases errs.len(),
{
    if errs.len() > 0 {
        lemma_first_error_none(errs.drop_last());
    }
}

/// Setting the entries of a list with distinct ids, in order, rebuilds the list.
proof fn lemma_entries_set_distinct(es: Seq<Entry>)
    requires
        distinct_ids(es),
    ensures
        entries_set(es.map_values(|e: Entry| entry_def(e))) == es,
    decreases es.len(),
{
    let ds = es.map_values(|e: Entry| entry_def(e));
    if es.len() > 0 {
        let p = es.drop_last();
        assert(ds.drop_last() =~= p.map_values(|e: Entry| entry_def(e)));
        assert forall|i: int, j: int| 0 <= i < j < p.len() implies (#[trigger] p[i]).id@ != (#[trigger] p[j]).id@ by {
            assert(p[i] == es[i] && p[j] == es[j]);
        }
        lemma_entries_set_distinct(p);
        let last = es.last();
        assert(entry_of(ds.last()) == last);
        lemma_position_of(p, last.id@);
        assert forall|j: int| 0 <= j < p.len() implies (#[trigger] p[j]).id@ != last.id@ by {
            assert(p[j] == es[j]);
        }
        assert(position_of(p, last.id@) == -1);
        assert(p.push(last) =~= es);
    }
}

/// Converting a calendar without components to its definition and back gives
/// a calendar with the same rules, windows and entries.
pub proof fn law_definition_roundtrip(c: Calendar, d: Definition)
    requires
        wf(c),
        !composite(c),
        describes(d, c),
    ensures
        definition_in_range(d),
        definition_error(d) is None,
        forall|back: Calendar| #[trigger] defined_calendar(back, d) ==> same_calendar(back, c),
{
    assert(own_wf(c));
    assert forall|i: int| 0 <= i < d.open_rules@.len() implies valid_time((#[trigger] d.open_rules@[i]).start as int)
        && valid_time(d.open_rules@[i].end as int) by {
        assert(valid_rule(c.open_rules@[i]));
    }
    assert forall|i: int| 0 <= i < d.break_rules@.len() implies valid_time((#[trigger] d.break_rules@[i]).start as int)
        && valid_time(d.break_rules@[i].end as int) by {
        assert(valid_rule(c.break_rules@[i]));
    }
    assert forall|i: int| 0 <= i < d.open_windows@.len() implies valid_instant((#[trigger] d.open_windows@[i]).start as int)
        && valid_instant(d.open_windows@[i].end as int) by {
        assert(crate::time::proper_window(c.open_windows@[i]));
    }
    assert forall|i: int| 0 <= i < d.closed_windows@.len() implies valid_instant((#[trigger] d.closed_windows@[i]).start as int)
        && valid_instant(d.closed_windows@[i].end as int) by {
        assert(crate::time::proper_window(c.closed_windows@[i]));
    }
    assert forall|i: int| 0 <= i < d.capacity_windows@.len() implies valid_instant((#[trigger] d.capacity_windows@[i]).start as int)
        && valid_instant(d.capacity_windows@[i].end as int) by {
        assert(valid_override(c.capacity_overrides@[i]));
    }
    assert forall|i: int| 0 <= i < d.entries@.len() implies valid_instant((#[trigger] d.entries@[i]).start as int)
        && valid_instant(d.entries@[i].end as int) by {
        assert(valid_entry(c.entries@[i]));
    }
    let e1 = rule_errors(d.open_rules@);
    assert forall|i: int| 0 <= i < e1.len() implies (#[trigger] e1[i]) is None by {
        assert(valid_rule(c.open_rules@[i]));
    }
    lemma_first_error_none(e1);
    let e2 = rule_errors(d.break_rules@);
    assert forall|i: int| 0 <= i < e2.len() implies (#[trigger] e2[i]) is None by {
        assert(valid_rule(c.break_rules@[i]));
    }
    lemma_first_error_none(e2);
    let e3 = window_errors(d.open_windows@);
    assert forall|i: int| 0 <= i < e3.len() implies (#[trigger] e3[i]) is None by {
        assert(crate::time::proper_window(c.open_windows@[i]));
    }
    lemma_first_error_none(e3);
    let e4 = window_errors(d.closed_windows@);
    assert forall|i: int| 0 <= i < e4.len() implies (#[trigger] e4[i]) is None by {
        assert(crate::time::proper_window(c.closed_windows@[i]));
    }
    lemma_first_error_none(e4);
    let e5 = capacity_errors(d.capacity_windows@);
    assert forall|i: int| 0 <= i < e5.len() implies (#[trigger] e5[i]) is None by {
        assert(valid_override(c.capacity_overrides@[i]));
    }
    lemma_first_error_none(e5);
    let e6 = entry_errors(d.entries@);
    assert forall|i: int| 0 <= i < e6.len() implies (#[trigger] e6[i]) is None by {
        assert(valid_entry(c.entries@[i]));
    }
    lemma_first_error_none(e6);
    assert(d.open_rules@.map_values(|r: RuleDefinition| rule_of(r)) =~= c.open_rules@);
    assert(d.break_rules@.map_values(|r: RuleDefinition| rule_of(r)) =~= c.break_rules@);
    assert(d.open_windows@.map_values(|w: WindowDefinition| window_of(w)) =~= c.open_windows@);
    assert(d.closed_windows@.map_values(|w: WindowDefinition| window_of(w)) =~= c.closed_windows@);
    assert(d.capacity_windows@.map_values(|w: CapacityDefinition| capacity_of(w)) =~= c.capacity_overrides@);
    lemma_entries_set_distinct(c.entries@);
}

/// The definition of a calendar, as the library presents it.
#[derive(Debug)]
pub struct TimeGridDefinition {
    pub inner: Definition,
}

impl TimeGridDefinition {
    /// The calendar the definition describes; fails with the first value that
    /// a calendar refuses.
    pub fn ToCalendar(&self) -> (r: Result<crate::grid::TimeGridCalendar, TimeGridError>)
        requires
            definition_in_range(self.inner),
        ensures
            r is Ok <==> definition_error(self.inner) is None,
            r matches Err(e) ==> definition_error(self.inner) == Some(e),
            r matches Ok(c) ==> wf(c.inner) && defined_calendar(c.inner, self.inner),
    {
        Ok(crate::grid::TimeGridCalendar { inner: self.inner.to_calendar()? })
    }

    /// Checks the text of a definition before it is read: it must not be blank.
    pub fn check_json(json: &str) -> (r: Result<(), TimeGridError>)
        ensures
            blank(json@) ==> r == Err::<(), TimeGridError>(TimeGridError::EmptyJson),
            !blank(json@) ==> r is Ok,
    {
        if crate::text::is_blank(json) {
            Err(TimeGridError::EmptyJson)
        } else {
            Ok(())
        }
    }
}

/// The entry definition `d` and the entry `e` agree field by field.
pub open spec fn same_entry_fields(d: EntryDefinition, e: Entry) -> bool {
    &&& d.id@ == e.id@
    &&& d.kind == e.kind
    &&& d.start == e.window.start
    &&& d.end == e.window.end
    &&& d.capacity == e.capacity
}

/// No entry definition after the `i`-th has its id.
pub open spec fn last_with_id(ds: Seq<EntryDefinition>, i: int) -> bool {
    forall|k: int| i < k < ds.len() ==> (#[trigger] ds[k]).id@ != ds[i].id@
}

/// The entry `e` is, field by field, the last of the definitions `ds` with its id.
pub open spec fn from_last_definition(ds: Seq<EntryDefinition>, e: Entry) -> bool {
    exists|i: int| 0 <= i < ds.len() && #[trigger] same_entry_fields(ds[i], e) && last_with_id(ds, i)
}

/// Setting entry definitions in turn leaves no two entries with one id.
proof fn lemma_entries_set_ids(ds: Seq<EntryDefinition>)
    ensures
        distinct_ids(entries_set(ds)),
    decreases ds.len(),
{
    if ds.len() > 0 {
        let pre = ds.drop_last();
        lemma_entries_set_ids(pre);
        let old = entries_set(pre);
        let e = entry_of(ds.last());
        let es = entries_set(ds);
        assert(es == entries_with(old, e));
        lemma_position_of(old, e.id@);
        let p = position_of(old, e.id@);
        assert forall|a: int, b: int| 0 <= a < b < es.len() implies (#[trigger] es[a]).id@ != (#[trigger] es[b]).id@ by {
            if p >= 0 {
                if a == p {
                    assert(old[b].id@ != old[p].id@);
                } else if b == p {
                    assert(old[a].id@ != old[p].id@);
                }
            }
        }
    }
}

/// Each entry left by setting entry definitions in turn is, field by field,
/// the last definition with its id.
#[verifier::spinoff_prover]
proof fn lemma_entries_set_from_last(ds: Seq<EntryDefinition>)
    ensures
        forall|j: int| 0 <= j < entries_set(ds).len() ==> from_last_definition(ds, #[trigger] entries_set(ds)[j]),
    decreases ds.len(),
{
    if ds.len() > 0 {
        let pre = ds.drop_last();
        lemma_entries_set_from_last(pre);
        lemma_entries_set_ids(pre);
        let old = entries_set(pre);
        let n = ds.len() - 1;
        let e = entry_of(ds.last());
        let es = entries_set(ds);
        assert(es == entries_with(old, e));
        lemma_position_of(old, e.id@);
        let p = position_of(old, e.id@);
        assert(ds[n] == ds.last());
        assert(same_entry_fields(ds[n], e));
        assert(last_with_id(ds, n));
        assert forall|j: int| 0 <= j < es.len() implies from_last_definition(ds, #[trigger] es[j]) by {
            if (p >= 0 && j == p) || (p < 0 && j == old.len()) {
                assert(es[j] == e);
                assert(same_entry_fields(ds[n], es[j]) && last_with_id(ds, n));
            } else {
                assert(es[j] == old[j]);
                assert(old[j] == entries_set(pre)[j]);
                assert(from_last_definition(pre, old[j]));
                let i = choose|i: int| 0 <= i < pre.len() && #[trigger] same_entry_fields(pre[i], old[j]) && last_with_id(pre, i);
                assert(pre[i] == ds[i]);
                assert(old[j].id@ != e.id@);
                assert forall|k: int| i < k < ds.len() implies (#[trigger] ds[k]).id@ != ds[i].id@ by {
                    if k < n {
                        assert(pre[k] == ds[k]);
                    }
                }
                assert(same_entry_fields(ds[i], es[j]) && last_with_id(ds, i));
            }
        }
    }
}

/// The last definition with each id is left, field by field, by setting entry
/// definitions in turn.
#[verifier::spinoff_prover]
proof fn lemma_entries_set_keeps_last(ds: Seq<EntryDefinition>)
    ensures
        forall|i: int| 0 <= i < ds.len() && #[trigger] last_with_id(ds, i) ==> exists|j: int|
            0 <= j < entries_set(ds).len() && same_entry_fields(ds[i], #[trigger] entries_set(ds)[j]),
    decreases ds.len(),
{
    if ds.len() > 0 {
        let pre = ds.drop_last();
        lemma_entries_set_keeps_last(pre);
        lemma_entries_set_ids(pre);
        let old = entries_set(pre);
        let n = ds.len() - 1;
        let e = entry_of(ds.last());
        let es = entries_set(ds);
        assert(es == entries_with(old, e));
        lemma_position_of(old, e.id@);
        let p = position_of(old, e.id@);
        assert(ds[n] == ds.last());
        assert forall|i: int| 0 <= i < ds.len() && #[trigger] last_with_id(ds, i) implies exists|j: int|
            0 <= j < es.len() && same_entry_fields(ds[i], #[trigger] es[j]) by {
            if i == n {
                if p >= 0 {
                    assert(es[p] == e);
                    assert(same_entry_fields(ds[i], es[p]));
                } else {
                    assert(es[old.len() as int] == e);
                    assert(same_entry_fields(ds[i], es[old.len() as int]));
                }
            } else {
                assert(pre[i] == ds[i]);
                assert(last_with_id(pre, i)) by {
                    assert forall|k: int| i < k < pre.len() implies (#[trigger] pre[k]).id@ != pre[i].id@ by {
                        assert(pre[k] == ds[k]);
                    }
                }
                let j = choose|j: int| 0 <= j < old.len() && same_entry_fields(pre[i], #[trigger] old[j]);
                assert(ds[n].id@ != ds[i].id@);
                assert(j != p) by {
                    if j == p {
                        assert(old[p].id@ == e.id@);
                    }
                }
                assert(es[j] == old[j]);
                assert(same_entry_fields(ds[i], es[j]));
            }
        }
    }
}

/// The definition of a calendar lists its entries in order, each with the
/// calendar entry's id, kind, window and capacity.
pub proof fn law_definition_keeps_entries(d: Definition, c: Calendar)
    requires
        describes(d, c),
    ensures
        d.entries@.len() == c.entries@.len(),
        forall|i: int| 0 <= i < d.entries@.len() ==> #[trigger] same_entry_fields(d.entries@[i], c.entries@[i]),
{
    assert forall|i: int| 0 <= i < d.entries@.len() implies #[trigger] same_entry_fields(d.entries@[i], c.entries@[i]) by {
        assert(d.entries@[i] == entry_def(c.entries@[i]));
    }
}

/// The calendar a definition makes holds, for each id, the last entry
/// definition with that id, with its kind, window and capacity, and no other entry.
pub proof fn law_defined_calendar_entries(c: Calendar, d: Definition)
    requires
        defined_calendar(c, d),
    ensures
        forall|j: int| 0 <= j < c.entries@.len() ==> from_last_definition(d.entries@, #[trigger] c.entries@[j]),
        forall|i: int| 0 <= i < d.entries@.len() && #[trigger] last_with_id(d.entries@, i) ==> exists|j: int|
            0 <= j < c.entries@.len() && same_entry_fields(d.entries@[i], #[trigger] c.entries@[j]),
{
    lemma_entries_set_from_last(d.entries@);
    lemma_entries_set_keeps_last(d.entries@);
    let es = entries_set(d.entries@);
    assert(c.entries@ == es);
    assert forall|j: int| 0 <= j < c.entries@.len() implies from_last_definition(d.entries@, #[trigger] c.entries@[j]) by {
        assert(es[j] == c.entries@[j]);
        assert(from_last_definition(d.entries@, es[j]));
    }
    assert forall|i: int| 0 <= i < d.entries@.len() && #[trigger] last_with_id(d.entries@, i) implies exists|j: int|
        0 <= j < c.entries@.len() && same_entry_fields(d.entries@[i], #[trigger] c.entries@[j]) by {
        let j = choose|j: int| 0 <= j < es.len() && same_entry_fields(d.entries@[i], #[trigger] es[j]);
        assert(c.entries@[j] == es[j]);
    }
}

/// A closing entry of a definition closes the calendar it makes: where the last
/// entry definition with its id has kind 1 and holds `t`, the capacity is 0.
pub proof fn law_defined_closed_entry_closes(c: Calendar, d: Definition, i: int, t: int)
    requires
        defined_calendar(c, d),
        0 <= i < d.entries@.len(),
        last_with_id(d.entries@, i),
        d.entries@[i].kind == 1,
        d.entries@[i].start <= t < d.entries@[i].end,
    ensures
        capacity_at(c, t) == 0,
{
    law_defined_calendar_entries(c, d);
    let j = choose|j: int| 0 <= j < c.entries@.len() && same_entry_fields(d.entries@[i], #[trigger] c.entries@[j]);
    assert(c.entries@[j].kind == 1 && c.entries@[j].window.has(t));
    assert(entry_kind_has(c.entries@, 1, t));
}

} // verus!
