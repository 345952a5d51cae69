//! Weekly rules: a time range on one day of the week, possibly running past midnight.
use vstd::prelude::*;
use crate::error::TimeGridError;
use crate::time::{
    Window, valid_time, valid_date, valid_instant, weekday, date_of, time_of, at_time, MAX_DATE, MIN_DATE,
    MICROS_PER_DAY, day_of_week, next_day, date_of_instant, time_of_instant, instant_at,
    lemma_date_of_at_time, lemma_date_time_split, lemma_valid_instant_date, lemma_date_monotone,
};
use crate::windows::covers_at;

verus! {

broadcast use vstd::seq_lib::group_seq_properties;

/// A weekly rule: from `start` to `end` (times of day) on day `day` of the week,
/// running into the next day when `end` is before `start`.
#[derive(Clone, Copy, Debug, PartialEq, Eq, Structural)]
pub struct WeeklyRule {
    pub day: u8,
    pub start: i64,
    pub end: i64,
}

/// A match of an instant against a window of the calendar, with the kind of the source.
#[derive(Clone, Copy, Debug, PartialEq, Eq, Structural)]
pub struct WindowMatch {
    pub kind: u8,
    pub window: Window,
    pub capacity: Option<i32>,
}

/// A rule that `WeeklyRule::new` accepts.
pub open spec fn valid_rule(r: WeeklyRule) -> bool {
    &&& r.day <= 6
    &&& valid_time(r.start as int)
    &&& valid_time(r.end as int)
    &&& r.start != r.end
}

pub open spec fn valid_rules(rules: Seq<WeeklyRule>) -> bool {
    forall|i: int| 0 <= i < rules.len() ==> valid_rule(#[trigger] rules[i])
}

/// The rule holds the instant `t`, judged by its day of the week and time of day.
pub open spec fn rule_contains(r: WeeklyRule, t: int) -> bool {
    let time = time_of(t);
    let day = weekday(date_of(t));
    if r.start < r.end {
        day == r.day && r.start <= time && time < r.end
    } else {
        (day == r.day && r.start <= time) || (day == (r.day + 1) % 7 && time < r.end)
    }
}

/// The day after `d`, or `d` itself on the last representable date.
pub open spec fn next_date_or_same(d: int) -> int {
    if d < MAX_DATE {
        d + 1
    } else {
        d
    }
}

/// The window of the rule on date `d`.
pub open spec fn rule_window(r: WeeklyRule, d: int) -> Window {
    Window {
        start: at_time(d, r.start as int) as i64,
        end: (if r.start < r.end {
            at_time(d, r.end as int)
        } else {
            at_time(next_date_or_same(d), r.end as int)
        }) as i64,
    }
}

/// The rule applies on date `d` and its window that day holds `t`.
pub open spec fn rule_hits(r: WeeklyRule, d: int, t: int) -> bool {
    weekday(d) == r.day && rule_window(r, d).has(t)
}

/// The instant `t` lies in a window that the rule expands to.
pub open spec fn rule_covers(r: WeeklyRule, t: int) -> bool {
    rule_hits(r, date_of(t), t) || (date_of(t) > MIN_DATE && rule_hits(r, date_of(t) - 1, t))
}

/// Some rule of the list holds `t` by day and time.
pub open spec fn any_rule_contains(rules: Seq<WeeklyRule>, t: int) -> bool {
    exists|i: int| 0 <= i < rules.len() && rule_contains(#[trigger] rules[i], t)
}

/// Some rule of the list expands to a window that holds `t`.
pub open spec fn any_rule_covers(rules: Seq<WeeklyRule>, t: int) -> bool {
    exists|i: int| 0 <= i < rules.len() && rule_covers(#[trigger] rules[i], t)
}

proof fn lemma_rule_window_bounds(r: WeeklyRule, d: int)
    requires
        valid_rule(r),
        valid_date(d),
    ensures
        rule_window(r, d).start as int == at_time(d, r.start as int),
        rule_window(r, d).end as int == (if r.start < r.end {
            at_time(d, r.end as int)
        } else {
            at_time(next_date_or_same(d), r.end as int)
        }),
        valid_instant(rule_window(r, d).start as int),
        valid_instant(rule_window(r, d).end as int),
{
    assert(crate::time::MIN_INSTANT <= at_time(d, r.start as int) <= crate::time::MAX_INSTANT) by (nonlinear_arith)
        requires
            MIN_DATE <= d <= MAX_DATE,
            0 <= r.start < MICROS_PER_DAY,
    ;
    let e = if r.start < r.end { d } else { next_date_or_same(d) };
    assert(crate::time::MIN_INSTANT <= at_time(e, r.end as int) <= crate::time::MAX_INSTANT) by (nonlinear_arith)
        requires
            MIN_DATE <= e <= MAX_DATE,
            0 <= r.end < MICROS_PER_DAY,
    ;
}

/// The rule's window on date `d` holds only instants of `d` and the day after.
proof fn lemma_rule_window_dates(r: WeeklyRule, d: int, t: int)
    requires
        valid_rule(r),
        valid_date(d),
        rule_window(r, d).has(t),
    ensures
        date_of(t) == d || date_of(t) == d + 1,
        date_of(t) == d ==> time_of(t) >= r.start,
        date_of(t) == d + 1 ==> r.start > r.end && d < MAX_DATE && time_of(t) < r.end,
{
    lemma_rule_window_bounds(r, d);
    lemma_date_time_split(t);
    let td = date_of(t);
    let tt = time_of(t);
    assert(t == td * MICROS_PER_DAY + tt);
    if td < d {
        assert(td * MICROS_PER_DAY + tt < d * MICROS_PER_DAY) by (nonlinear_arith)
            requires
                td < d,
                0 <= tt < MICROS_PER_DAY,
        ;
    }
    if td > d + 1 {
        assert(td * MICROS_PER_DAY >= (d + 2) * MICROS_PER_DAY) by (nonlinear_arith)
            requires
                td >= d + 2,
        ;
    }
    if td == d + 1 {
        if r.start < r.end || d >= MAX_DATE {
            assert(false);
        }
    }
}

/// Away from the first and the last representable day, a rule holds an instant
/// exactly when one of its windows does.
pub proof fn lemma_rule_contains_covers(r: WeeklyRule, t: int)
    requires
        valid_rule(r),
        MIN_DATE < date_of(t) < MAX_DATE,
    ensures
        rule_contains(r, t) == rule_covers(r, t),
{
    let d = date_of(t);
    let tt = time_of(t);
    lemma_date_time_split(t);
    lemma_date_of_at_time(d, r.start as int);
    if rule_covers(r, t) {
        if rule_hits(r, d, t) {
            lemma_rule_window_dates(r, d, t);
            lemma_rule_window_bounds(r, d);
        } else {
            lemma_rule_window_dates(r, d - 1, t);
            lemma_rule_window_bounds(r, d - 1);
            assert(weekday(d) == (weekday(d - 1) + 1) % 7) by {
                vstd::arithmetic::div_mod::lemma_add_mod_noop(d + 3, 1, 7);
            }
            assert(at_time(d, r.end as int) == at_time(d - 1 + 1, r.end as int));
        }
    }
    if rule_contains(r, t) {
        if weekday(d) == r.day && r.start <= tt && (r.start > r.end || tt < r.end) {
            lemma_rule_window_bounds(r, d);
            assert(rule_hits(r, d, t));
        } else {
            assert(r.start > r.end && weekday(d) == (r.day + 1) % 7 && tt < r.end);
            lemma_rule_window_bounds(r, d - 1);
            assert(weekday(d - 1) == r.day) by {
                vstd::arithmetic::div_mod::lemma_add_mod_noop(d + 3, 1, 7);
                assert(weekday(d) == (weekday(d - 1) + 1) % 7);
            }
            assert(at_time(d - 1 + 1, r.end as int) == at_time(d, r.end as int));
            assert(rule_window(r, d - 1).start <= t) by (nonlinear_arith)
                requires
                    rule_window(r, d - 1).start == (d - 1) * MICROS_PER_DAY + r.start,
                    t == d * MICROS_PER_DAY + tt,
                    r.start < MICROS_PER_DAY,
                    tt >= 0,
            ;
            assert(rule_hits(r, d - 1, t));
        }
    }
}

pub proof fn lemma_rules_contains_covers(rules: Seq<WeeklyRule>, t: int)
    requires
        valid_rules(rules),
        MIN_DATE < date_of(t) < MAX_DATE,
    ensures
        any_rule_contains(rules, t) == any_rule_covers(rules, t),
{
    if any_rule_contains(rules, t) {
        let i = choose|i: int| 0 <= i < rules.len() && rule_contains(#[trigger] rules[i], t);
        lemma_rule_contains_covers(rules[i], t);
    }
    if any_rule_covers(rules, t) {
        let i = choose|i: int| 0 <= i < rules.len() && rule_covers(#[trigger] rules[i], t);
        lemma_rule_contains_covers(rules[i], t);
    }
}

/// Why `WeeklyRule::new` refuses its arguments, if it does.
pub open spec fn rule_error(day: u8, start: i64, end: i64) -> Option<TimeGridError> {
    if day > 6 {
        Some(TimeGridError::DayOutOfRange)
    } else if start == end {
        Some(TimeGridError::SameStartAndEnd)
    } else {
        None
    }
}

impl WeeklyRule {
    /// Builds a rule; the day must be 0..6 and the two times must differ.
    pub fn new(day: u8, start: i64, end: i64) -> (r: Result<WeeklyRule, TimeGridError>)
        requires
            valid_time(start as int),
            valid_time(end as int),
        ensures
            day > 6 ==> r == Err::<WeeklyRule, TimeGridError>(TimeGridError::DayOutOfRange),
            day <= 6 && start == end ==> r == Err::<WeeklyRule, TimeGridError>(
                TimeGridError::SameStartAndEnd,
            ),
            day <= 6 && start != end ==> r == Ok::<WeeklyRule, TimeGridError>(
                WeeklyRule { day, start, end },
            ),
            r matches Ok(rule) ==> valid_rule(rule),
            r is Err <==> rule_error(day, start, end) is Some,
            r matches Err(e) ==> rule_error(day, start, end) == Some(e),
    {
        if day > 6 {
            return Err(TimeGridError::DayOutOfRange);
        }
        if start == end {
            return Err(TimeGridError::SameStartAndEnd);
        }
        Ok(WeeklyRule { day, start, end })
    }

    /// The rule holds the instant, by its day of the week and time of day.
    pub fn contains(self, instant: i64) -> (b: bool)
        requires
            valid_rule(self),
            valid_instant(instant as int),
        ensures
            b == rule_contains(self, instant as int),
    {
        let time = time_of_instant(instant);
        let date = date_of_instant(instant);
        let day = day_of_week(date);
        if self.start < self.end {
            day == self.day && self.start <= time && time < self.end
        } else {
            (day == self.day && self.start <= time) || (day == next_day(self.day) && time
                < self.end)
        }
    }

    /// The window of the rule on `date`; on the last representable date a rule
    /// running past midnight ends at its end time on that same date.
    pub fn to_window(self, date: i64) -> (w: Window)
        requires
            valid_rule(self),
            valid_date(date as int),
        ensures
            w == rule_window(self, date as int),
            crate::time::valid_window(w),
    {
        proof {
            lemma_rule_window_bounds(self, date as int);
        }
        let start = instant_at(date, self.start);
        let end = if self.start < self.end {
            instant_at(date, self.end)
        } else {
            let next = if date < MAX_DATE { date + 1 } else { date };
            instant_at(next, self.end)
        };
        Window { start, end }
    }
}

/// Some rule applies on a date in `[first, upto)` with a window holding `t`.
pub open spec fn hits_between(rules: Seq<WeeklyRule>, first: int, upto: int, t: int) -> bool {
    exists|i: int, d: int| 0 <= i < rules.len() && first <= d < upto && #[trigger] rule_hits(rules[i], d, t)
}

/// `w` is the window of one of `rules` on a date of its weekday, clipped to `query`.
pub open spec fn clipped_rule_window(rules: Seq<WeeklyRule>, query: Window, w: Window) -> bool {
    exists|i: int, d: int|
        0 <= i < rules.len() && valid_date(d) && weekday(d) == rules[i].day
            && w == (#[trigger] rule_window(rules[i], d)).meet(query)
}

/// The windows of `rules` clipped to `query`, in order of start, then end.
pub fn expand_rules(rules: &Vec<WeeklyRule>, query: Window) -> (r: Vec<Window>)
    requires
        valid_rules(rules@),
        crate::time::proper_window(query),
    ensures
        forall|t: int| #[trigger] covers_at(r@, t) <==> (query.has(t) && any_rule_covers(rules@, t)),
        forall|i: int| 0 <= i < r.len() ==> query.start <= (#[trigger] r@[i]).start && r@[i].start < r@[i].end && r@[i].end <= query.end,
        forall|i: int| 0 <= i < r.len() ==> clipped_rule_window(rules@, query, #[trigger] r@[i]),
        forall|i: int, j: int| 0 <= i <= j < r.len() ==> crate::windows::window_le(#[trigger] r@[i], #[trigger] r@[j]),
{
    let mut result: Vec<Window> = Vec::new();
    let start_date = date_of_instant(query.start);
    let first = if start_date > MIN_DATE { start_date - 1 } else { start_date };
    let last_date = date_of_instant(query.end);
    let mut date = first;
    let mut done = false;
    while !done && date <= last_date
        invariant
            valid_rules(rules@),
            crate::time::proper_window(query),
            start_date == date_of(query.start as int),
            last_date == date_of(query.end as int),
            first == (if start_date > MIN_DATE { start_date - 1 } else { start_date as int }),
            valid_date(date as int),
            valid_date(last_date as int),
            first <= date,
            !done ==> date <= last_date + 1,
            done ==> date == MAX_DATE,
            forall|t: int| #[trigger] covers_at(result@, t) <==> (query.has(t) && hits_between(
                rules@,
                first as int,
                if done { date + 1 } else { date as int },
                t,
            )),
            forall|i: int| 0 <= i < result.len() ==> query.start <= (#[trigger] result@[i]).start && result@[i].start < result@[i].end && result@[i].end <= query.end,
            forall|i: int| 0 <= i < result.len() ==> clipped_rule_window(rules@, query, #[trigger] result@[i]),
        decreases last_date + 1 - date, if done { 0int } else { 1int },
    {
        let day = day_of_week(date);
        let mut j: usize = 0;
        while j < rules.len()
            invariant
                valid_rules(rules@),
                crate::time::proper_window(query),
                valid_date(date as int),
                day == weekday(date as int),
                j <= rules.len(),
                forall|t: int| #[trigger] covers_at(result@, t) <==> (query.has(t) && (hits_between(
                    rules@,
                    first as int,
                    date as int,
                    t,
                ) || exists|i: int| 0 <= i < j && #[trigger] rule_hits(rules@[i], date as int, t))),
                forall|i: int| 0 <= i < result.len() ==> query.start <= (#[trigger] result@[i]).start && result@[i].start < result@[i].end && result@[i].end <= query.end,
                forall|i: int| 0 <= i < result.len() ==> clipped_rule_window(rules@, query, #[trigger] result@[i]),
            decreases rules.len() - j,
        {
            let rule = rules[j];
            let ghost old_r = result@;
            if day == rule.day {
                let w = rule.to_window(date);
                if let Some(clipped) = w.intersect(query) {
                    result.push(clipped);
                    proof {
                        assert(rules@[j as int] == rule);
                        assert(clipped_rule_window(rules@, query, result@[result@.len() - 1]));
                    }
                }
            }
            proof {
                assert(rules@[j as int] == rule);
                assert forall|t: int| #[trigger] covers_at(result@, t) <==> (query.has(t) && (hits_between(
                    rules@,
                    first as int,
                    date as int,
                    t,
                ) || exists|i: int| 0 <= i < j + 1 && #[trigger] rule_hits(rules@[i], date as int, t))) by {
                    if covers_at(result@, t) {
                        let m = choose|m: int| 0 <= m < result@.len() && (#[trigger] result@[m]).has(t);
                        if m < old_r.len() {
                            assert(old_r[m] == result@[m]);
                            assert(covers_at(old_r, t));
                        } else {
                            assert(rule_hits(rules@[j as int], date as int, t));
                        }
                    }
                    if query.has(t) && (hits_between(rules@, first as int, date as int, t) || exists|i: int| 0 <= i < j + 1 && #[trigger] rule_hits(rules@[i], date as int, t)) {
                        if hits_between(rules@, first as int, date as int, t) || exists|i: int| 0 <= i < j && #[trigger] rule_hits(rules@[i], date as int, t) {
                            assert(covers_at(old_r, t));
                            let m = choose|m: int| 0 <= m < old_r.len() && (#[trigger] old_r[m]).has(t);
                            assert(result@[m] == old_r[m]);
                        } else {
                            assert(rule_hits(rules@[j as int], date as int, t));
                            assert(result@[result@.len() - 1].has(t));
                        }
                    }
                }
            }
            j = j + 1;
        }
        proof {
            assert forall|t: int| #[trigger] covers_at(result@, t) <==> (query.has(t) && hits_between(
                rules@,
                first as int,
                date + 1,
                t,
            )) by {
                if query.has(t) && hits_between(rules@, first as int, date + 1, t) {
                    let (i, d) = choose|i: int, d: int| 0 <= i < rules@.len() && first <= d < date + 1 && #[trigger] rule_hits(rules@[i], d, t);
                    if d < date {
                        assert(hits_between(rules@, first as int, date as int, t));
                    } else {
                        assert(rule_hits(rules@[i], date as int, t));
                    }
                }
                if covers_at(result@, t) && !hits_between(rules@, first as int, date as int, t) {
                    let i = choose|i: int| 0 <= i < rules@.len() && #[trigger] rule_hits(rules@[i], date as int, t);
                    assert(rule_hits(rules@[i], date as int, t));
                }
            }
        }
        if date < MAX_DATE {
            date = date + 1;
        } else {
            done = true;
        }
    }
    proof {
        let upto = if done { date + 1 } else { date as int };
        lemma_valid_instant_date(query.start as int);
        lemma_valid_instant_date(query.end as int);
        assert forall|t: int| #[trigger] covers_at(result@, t) <==> (query.has(t) && any_rule_covers(rules@, t)) by {
            if query.has(t) {
                lemma_date_monotone(query.start as int, t);
                lemma_date_monotone(t, query.end as int);
                lemma_valid_instant_date(t);
                if hits_between(rules@, first as int, upto, t) {
                    let (i, d) = choose|i: int, d: int| 0 <= i < rules@.len() && first <= d < upto && #[trigger] rule_hits(rules@[i], d, t);
                    lemma_rule_window_dates(rules@[i], d, t);
                    assert(rule_covers(rules@[i], t));
                }
                if any_rule_covers(rules@, t) {
                    let i = choose|i: int| 0 <= i < rules@.len() && rule_covers(#[trigger] rules@[i], t);
                    if rule_hits(rules@[i], date_of(t), t) {
                        assert(hits_between(rules@, first as int, upto, t));
                    } else {
                        assert(hits_between(rules@, first as int, upto, t));
                    }
                }
            }
        }
    }
    let sorted = crate::sort::sort_by_key(result);
    proof {
        crate::windows::lemma_multiset_same_instants(sorted@, result@);
        assert forall|i: int| 0 <= i < sorted.len() implies query.start <= (#[trigger] sorted@[i]).start && sorted@[i].start < sorted@[i].end && sorted@[i].end <= query.end
            && clipped_rule_window(rules@, query, sorted@[i]) by {
            assert(sorted@.contains(sorted@[i]));
            assert(result@.contains(sorted@[i]));
        }
        assert forall|i: int, j: int| 0 <= i <= j < sorted.len() implies crate::windows::window_le(#[trigger] sorted@[i], #[trigger] sorted@[j]) by {
            crate::windows::lemma_window_key(sorted@[i], sorted@[j]);
        }
    }
    sorted
}

/// The matches of `rules` against `t` on date `d`, among the first `n` rules, in rule order.
pub open spec fn matches_on(rules: Seq<WeeklyRule>, kind: u8, t: int, d: int, n: int) -> Seq<WindowMatch>
    decreases n,
{
    if n <= 0 {
        Seq::empty()
    } else {
        matches_on(rules, kind, t, d, n - 1) + if rule_hits(rules[n - 1], d, t) {
            seq![WindowMatch { kind, window: rule_window(rules[n - 1], d), capacity: None }]
        } else {
            Seq::empty()
        }
    }
}

/// The matches of `rules` against `t`: those of the windows starting the day
/// before, then those starting the same day.
pub open spec fn rule_matches(rules: Seq<WeeklyRule>, kind: u8, t: int) -> Seq<WindowMatch> {
    (if date_of(t) > MIN_DATE {
        matches_on(rules, kind, t, date_of(t) - 1, rules.len() as int)
    } else {
        Seq::empty()
    }) + matches_on(rules, kind, t, date_of(t), rules.len() as int)
}

/// Appends to `result` a match of kind `kind` for each rule window holding `instant`.
pub fn add_rule_matches(
    rules: &Vec<WeeklyRule>,
    kind: u8,
    instant: i64,
    result: &mut Vec<WindowMatch>,
)
    requires
        valid_rules(rules@),
        valid_instant(instant as int),
    ensures
        final(result)@ == old(result)@ + rule_matches(rules@, kind, instant as int),
{
    let today = date_of_instant(instant);
    let mut date = if today > MIN_DATE { today - 1 } else { today };
    let ghost base = result@;
    let ghost first_part = if date_of(instant as int) > MIN_DATE {
        matches_on(rules@, kind, instant as int, date_of(instant as int) - 1, rules@.len() as int)
    } else {
        Seq::<WindowMatch>::empty()
    };
    while date <= today
        invariant
            valid_rules(rules@),
            valid_instant(instant as int),
            today == date_of(instant as int),
            valid_date(today as int),
            (if today > MIN_DATE { today - 1 } else { today as int }) <= date as int <= today + 1,
            date < today ==> result@ == base,
            date == today && today > MIN_DATE ==> result@ == base + first_part,
            date == today && today <= MIN_DATE ==> result@ == base,
            date > today ==> result@ == base + rule_matches(rules@, kind, instant as int),
            first_part == (if date_of(instant as int) > MIN_DATE {
                matches_on(rules@, kind, instant as int, date_of(instant as int) - 1, rules@.len() as int)
            } else {
                Seq::<WindowMatch>::empty()
            }),
        decreases today + 1 - date,
    {
        let day = day_of_week(date);
        let ghost start_r = result@;
        let mut j: usize = 0;
        while j < rules.len()
            invariant
                valid_rules(rules@),
                valid_instant(instant as int),
                valid_date(date as int),
                day == weekday(date as int),
                j <= rules.len(),
                result@ == start_r + matches_on(rules@, kind, instant as int, date as int, j as int),
            decreases rules.len() - j,
        {
            let rule = rules[j];
            if day == rule.day {
                let window = rule.to_window(date);
                if window.contains(instant) {
                    result.push(WindowMatch { kind, window, capacity: None });
                }
            }
            proof {
                assert(rules@[j as int] == rule);
                assert(result@ =~= start_r + matches_on(rules@, kind, instant as int, date as int, j + 1));
            }
            j = j + 1;
        }
        proof {
            if date < today {
                assert(result@ == base + first_part);
            } else {
                if today > MIN_DATE {
                    assert(result@ =~= base + rule_matches(rules@, kind, instant as int));
                } else {
                    assert(result@ =~= base + rule_matches(rules@, kind, instant as int));
                }
            }
        }
        date = date + 1;
    }
}

} // verus!
