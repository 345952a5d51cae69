//! The calendar: weekly rules, dated windows, capacity overrides and named
//! entries, or the intersection of several calendars; and its point queries.
use vstd::prelude::*;
use crate::error::TimeGridError;
use crate::time::{
    Window, valid_instant, valid_time, valid_date, proper_window, at_time, instant_at, MAX_DATE,
    DEFAULT_CAPACITY,
};
use crate::rules::{WeeklyRule, valid_rules, any_rule_contains, rule_contains};
use crate::text::{blank, is_blank};

verus! {

broadcast use vstd::seq_lib::group_seq_properties;

/// A window in which the capacity is overridden.
#[derive(Clone, Copy, Debug, PartialEq, Eq, Structural)]
pub struct CapacityWindow {
    pub window: Window,
    pub capacity: i32,
}

/// A named window: kind 0 opens, kind 1 closes, kind 2 sets the capacity.
#[derive(Debug)]
pub struct Entry {
    pub id: String,
    pub kind: u8,
    pub window: Window,
    pub capacity: i32,
}

impl Entry {
    /// A copy of the entry.
    pub fn duplicate(&self) -> (r: Entry)
        ensures
            r == *self,
    {
        Entry { id: self.id.clone(), kind: self.kind, window: self.window, capacity: self.capacity }
    }
}

/// A calendar: its own rules and windows, or, when `components` is not empty,
/// the intersection of the component calendars.
#[derive(Debug)]
pub struct Calendar {
    pub default_capacity: i32,
    pub open_rules: Vec<WeeklyRule>,
    pub break_rules: Vec<WeeklyRule>,
    pub open_windows: Vec<Window>,
    pub closed_windows: Vec<Window>,
    pub capacity_overrides: Vec<CapacityWindow>,
    pub entries: Vec<Entry>,
    pub components: Vec<Calendar>,
}

/// Every window of the list is proper.
pub open spec fn proper_windows(ws: Seq<Window>) -> bool {
    forall|i: int| 0 <= i < ws.len() ==> proper_window(#[trigger] ws[i])
}

pub open spec fn valid_override(o: CapacityWindow) -> bool {
    proper_window(o.window) && o.capacity >= 0
}

pub open spec fn valid_entry(e: Entry) -> bool {
    &&& proper_window(e.window)
    &&& (e.kind == 2 ==> e.capacity >= 0)
    &&& !blank(e.id@)
}

/// No two entries share an id.
pub open spec fn distinct_ids(es: Seq<Entry>) -> bool {
    forall|i: int, j: int| 0 <= i < j < es.len() ==> (#[trigger] es[i]).id@ != (#[trigger] es[j]).id@
}

/// What the calendar's own editing operations maintain.
pub open spec fn own_wf(c: Calendar) -> bool {
    &&& c.default_capacity >= 0
    &&& valid_rules(c.open_rules@)
    &&& valid_rules(c.break_rules@)
    &&& proper_windows(c.open_windows@)
    &&& proper_windows(c.closed_windows@)
    &&& forall|i: int| 0 <= i < c.capacity_overrides@.len() ==> valid_override(#[trigger] c.capacity_overrides@[i])
    &&& forall|i: int| 0 <= i < c.entries@.len() ==> valid_entry(#[trigger] c.entries@[i])
    &&& distinct_ids(c.entries@)
}

/// A calendar that the library's operations can build.
pub open spec fn wf(c: Calendar) -> bool
    decreases c,
{
    if c.components@.len() > 0 {
        forall|i: int| 0 <= i < c.components@.len() ==> wf(#[trigger] c.components@[i])
    } else {
        own_wf(c)
    }
}

/// Two calendars hold the same rules, windows, entries and components.
pub open spec fn same_calendar(a: Calendar, b: Calendar) -> bool
    decreases a,
{
    &&& a.default_capacity == b.default_capacity
    &&& a.open_rules@ == b.open_rules@
    &&& a.break_rules@ == b.break_rules@
    &&& a.open_windows@ == b.open_windows@
    &&& a.closed_windows@ == b.closed_windows@
    &&& a.capacity_overrides@ == b.capacity_overrides@
    &&& a.entries@ == b.entries@
    &&& a.components@.len() == b.components@.len()
    &&& forall|i: int| 0 <= i < a.components@.len() ==> same_calendar(#[trigger] a.components@[i], b.components@[i])
}

/// The calendar is the intersection of other calendars.
pub open spec fn composite(c: Calendar) -> bool {
    c.components@.len() > 0
}

pub open spec fn window_list_has(ws: Seq<Window>, t: int) -> bool {
    exists|i: int| 0 <= i < ws.len() && (#[trigger] ws[i]).has(t)
}

/// Some entry of kind `kind` holds `t`.
pub open spec fn entry_kind_has(es: Seq<Entry>, kind: u8, t: int) -> bool {
    exists|i: int| 0 <= i < es.len() && (#[trigger] es[i]).kind == kind && es[i].window.has(t)
}

/// The own rules and windows of a calendar open the instant.
pub open spec fn opened_at(c: Calendar, t: int) -> bool {
    any_rule_contains(c.open_rules@, t) || window_list_has(c.open_windows@, t) || entry_kind_has(
        c.entries@,
        0,
        t,
    )
}

/// The own rules and windows of a calendar close the instant.
pub open spec fn closed_at(c: Calendar, t: int) -> bool {
    any_rule_contains(c.break_rules@, t) || window_list_has(c.closed_windows@, t)
        || entry_kind_has(c.entries@, 1, t)
}

/// The capacity set by the last override holding `t`, or `init`.
pub open spec fn override_cap(ovs: Seq<CapacityWindow>, t: int, init: int) -> int
    decreases ovs.len(),
{
    if ovs.len() == 0 {
        init
    } else if ovs.last().window.has(t) {
        ovs.last().capacity as int
    } else {
        override_cap(ovs.drop_last(), t, init)
    }
}

/// The capacity set by the last capacity entry holding `t`, or `init`.
pub open spec fn entry_cap(es: Seq<Entry>, t: int, init: int) -> int
    decreases es.len(),
{
    if es.len() == 0 {
        init
    } else if es.last().kind == 2 && es.last().window.has(t) {
        es.last().capacity as int
    } else {
        entry_cap(es.drop_last(), t, init)
    }
}

/// The capacity of a calendar without components: zero when it is not open,
/// else the last capacity entry, else the last override, else the default.
pub open spec fn own_capacity(c: Calendar, t: int) -> int {
    if !(opened_at(c, t) && !closed_at(c, t)) {
        0
    } else {
        entry_cap(c.entries@, t, override_cap(c.capacity_overrides@, t, c.default_capacity as int))
    }
}

/// The capacity of a calendar at `t`.
pub open spec fn capacity_at(c: Calendar, t: int) -> int
    decreases c, 0int,
{
    if c.components@.len() > 0 {
        let m = components_min(c.components@, t, c.components@.len() as int);
        if m == i32::MAX {
            0
        } else {
            m
        }
    } else {
        own_capacity(c, t)
    }
}

/// The running minimum over the first `n` components, zero as soon as one is zero,
/// starting from `i32::MAX`.
pub open spec fn components_min(cs: Seq<Calendar>, t: int, n: int) -> int
    decreases cs, n,
{
    if n <= 0 || n > cs.len() {
        i32::MAX as int
    } else {
        let prev = components_min(cs, t, n - 1);
        let c = capacity_at(cs[n - 1], t);
        if prev == 0 || c == 0 {
            0
        } else if c < prev {
            c
        } else {
            prev
        }
    }
}

/// The calendar can work at `t`.
pub open spec fn open_at(c: Calendar, t: int) -> bool {
    if composite(c) {
        forall|i: int| 0 <= i < c.components@.len() ==> capacity_at(#[trigger] c.components@[i], t) > 0
    } else {
        opened_at(c, t) && !closed_at(c, t)
    }
}

pub proof fn lemma_capacity_bounds(c: Calendar, t: int)
    requires
        wf(c),
    ensures
        0 <= capacity_at(c, t) <= i32::MAX,
    decreases c, 1int,
{
    if composite(c) {
        lemma_components_min_bounds(c.components@, t, c.components@.len() as int);
    } else {
        lemma_override_cap_bounds(c.capacity_overrides@, t, c.default_capacity as int);
        lemma_entry_cap_bounds(
            c.entries@,
            t,
            override_cap(c.capacity_overrides@, t, c.default_capacity as int),
        );
    }
}

proof fn lemma_components_min_bounds(cs: Seq<Calendar>, t: int, n: int)
    requires
        forall|i: int| 0 <= i < cs.len() ==> wf(#[trigger] cs[i]),
    ensures
        0 <= components_min(cs, t, n) <= i32::MAX,
    decreases cs, n,
{
    if n <= 0 || n > cs.len() {
    } else {
        lemma_components_min_bounds(cs, t, n - 1);
        lemma_capacity_bounds(cs[n - 1], t);
    }
}

proof fn lemma_override_cap_bounds(ovs: Seq<CapacityWindow>, t: int, init: int)
    requires
        forall|i: int| 0 <= i < ovs.len() ==> valid_override(#[trigger] ovs[i]),
        0 <= init <= i32::MAX,
    ensures
        0 <= override_cap(ovs, t, init) <= i32::MAX,
    decreases ovs.len(),
{
    if ovs.len() > 0 {
        lemma_override_cap_bounds(ovs.drop_last(), t, init);
    }
}

proof fn lemma_entry_cap_bounds(es: Seq<Entry>, t: int, init: int)
    requires
        forall|i: int| 0 <= i < es.len() ==> valid_entry(#[trigger] es[i]),
        0 <= init <= i32::MAX,
    ensures
        0 <= entry_cap(es, t, init) <= i32::MAX,
    decreases es.len(),
{
    if es.len() > 0 {
        lemma_entry_cap_bounds(es.drop_last(), t, init);
    }
}

/// A copy of a vector of copyable values.
pub fn copy_vec<T: Copy>(v: &Vec<T>) -> (r: Vec<T>)
    ensures
        r@ == v@,
{
    let mut r: Vec<T> = Vec::new();
    let mut i: usize = 0;
    while i < v.len()
        invariant
            i <= v.len(),
            r@ == v@.subrange(0, i as int),
        decreases v.len() - i,
    {
        r.push(v[i]);
        proof {
            assert(v@.subrange(0, i + 1) =~= v@.subrange(0, i as int).push(v@[i as int]));
        }
        i = i + 1;
    }
    proof {
        assert(v@.subrange(0, v.len() as int) =~= v@);
    }
    r
}

/// A copy of a vector of entries.
pub fn copy_entries(v: &Vec<Entry>) -> (r: Vec<Entry>)
    ensures
        r@ == v@,
{
    let mut r: Vec<Entry> = Vec::new();
    let mut i: usize = 0;
    while i < v.len()
        invariant
            i <= v.len(),
            r@ == v@.subrange(0, i as int),
        decreases v.len() - i,
    {
        r.push(v[i].duplicate());
        proof {
            assert(v@.subrange(0, i + 1) =~= v@.subrange(0, i as int).push(v@[i as int]));
        }
        i = i + 1;
    }
    proof {
        assert(v@.subrange(0, v.len() as int) =~= v@);
    }
    r
}

impl Calendar {
    /// An empty calendar with the default capacity; it is never open.
    pub fn new_default() -> (c: Calendar)
        ensures
            c.default_capacity == DEFAULT_CAPACITY,
            c.open_rules@.len() == 0,
            c.break_rules@.len() == 0,
            c.open_windows@.len() == 0,
            c.closed_windows@.len() == 0,
            c.capacity_overrides@.len() == 0,
            c.entries@.len() == 0,
            c.components@.len() == 0,
            wf(c),
    {
        Calendar {
            default_capacity: DEFAULT_CAPACITY,
            open_rules: Vec::new(),
            break_rules: Vec::new(),
            open_windows: Vec::new(),
            closed_windows: Vec::new(),
            capacity_overrides: Vec::new(),
            entries: Vec::new(),
            components: Vec::new(),
        }
    }

    /// A deep copy of the calendar.
    pub fn duplicate(&self) -> (r: Calendar)
        ensures
            same_calendar(r, *self),
        decreases self,
    {
        let mut components: Vec<Calendar> = Vec::new();
        let mut i: usize = 0;
        while i < self.components.len()
            invariant
                i <= self.components@.len(),
                components@.len() == i,
                forall|j: int| 0 <= j < i ==> same_calendar(#[trigger] components@[j], self.components@[j]),
            decreases self.components@.len() - i,
        {
            proof {
                assert(decreases_to!(self => self.components));
                assert(decreases_to!(self.components => self.components@));
                assert(decreases_to!(self.components@ => self.components@[i as int]));
            }
            let c = self.components[i].duplicate();
            components.push(c);
            i = i + 1;
        }
        Calendar {
            default_capacity: self.default_capacity,
            open_rules: copy_vec(&self.open_rules),
            break_rules: copy_vec(&self.break_rules),
            open_windows: copy_vec(&self.open_windows),
            closed_windows: copy_vec(&self.closed_windows),
            capacity_overrides: copy_vec(&self.capacity_overrides),
            entries: copy_entries(&self.entries),
            components,
        }
    }

    /// The calendar is the intersection of other calendars.
    pub fn is_composite(&self) -> (b: bool)
        ensures
            b == composite(*self),
    {
        self.components.len() != 0
    }

    /// Fails when the calendar is composite: composite calendars are query-only.
    pub fn ensure_editable(&self) -> (r: Result<(), TimeGridError>)
        ensures
            composite(*self) ==> r == Err::<(), TimeGridError>(TimeGridError::CompositeNotEditable),
            !composite(*self) ==> r is Ok,
    {
        if self.is_composite() {
            Err(TimeGridError::CompositeNotEditable)
        } else {
            Ok(())
        }
    }

    /// Sets the capacity used where no override applies.
    pub fn set_default_capacity(&mut self, capacity: i32) -> (r: Result<(), TimeGridError>)
        requires
            wf(*old(self)),
        ensures
            wf(*final(self)),
            composite(*old(self)) ==> r == Err::<(), TimeGridError>(
                TimeGridError::CompositeNotEditable,
            ),
            !composite(*old(self)) && capacity < 0 ==> r == Err::<(), TimeGridError>(
                TimeGridError::NegativeCapacity,
            ),
            r is Err ==> *final(self) == *old(self),
            r is Ok ==> *final(self) == (Calendar { default_capacity: capacity, ..*old(self) }),
            r is Ok <==> !composite(*old(self)) && capacity >= 0,
    {
        self.ensure_editable()?;
        if capacity < 0 {
            return Err(TimeGridError::NegativeCapacity);
        }
        self.default_capacity = capacity;
        Ok(())
    }

    /// Adds a weekly open rule.
    pub fn add_open_rule(&mut self, day: u8, start: i64, end: i64) -> (r: Result<(), TimeGridError>)
        requires
            wf(*old(self)),
            valid_time(start as int),
            valid_time(end as int),
        ensures
            wf(*final(self)),
            composite(*old(self)) ==> r == Err::<(), TimeGridError>(
                TimeGridError::CompositeNotEditable,
            ),
            !composite(*old(self)) && crate::rules::rule_error(day, start, end) is Some ==> r == Err::<(), TimeGridError>(crate::rules::rule_error(day, start, end)->0),
            r is Ok <==> !composite(*old(self)) && crate::rules::rule_error(day, start, end) is None,
            r is Err ==> *final(self) == *old(self),
            r is Ok ==> *final(self) == (Calendar {
                open_rules: final(self).open_rules,
                ..*old(self)
            }) && final(self).open_rules@ == old(self).open_rules@.push(
                WeeklyRule { day, start, end },
            ),
    {
        self.ensure_editable()?;
        let rule = WeeklyRule::new(day, start, end)?;
        self.open_rules.push(rule);
        Ok(())
    }

    /// Adds a weekly break rule.
    pub fn add_break_rule(&mut self, day: u8, start: i64, end: i64) -> (r: Result<(), TimeGridError>)
        requires
            wf(*old(self)),
            valid_time(start as int),
            valid_time(end as int),
        ensures
            wf(*final(self)),
            composite(*old(self)) ==> r == Err::<(), TimeGridError>(
                TimeGridError::CompositeNotEditable,
            ),
            !composite(*old(self)) && crate::rules::rule_error(day, start, end) is Some ==> r == Err::<(), TimeGridError>(crate::rules::rule_error(day, start, end)->0),
            r is Ok <==> !composite(*old(self)) && crate::rules::rule_error(day, start, end) is None,
            r is Err ==> *final(self) == *old(self),
            r is Ok ==> *final(self) == (Calendar {
                break_rules: final(self).break_rules,
                ..*old(self)
            }) && final(self).break_rules@ == old(self).break_rules@.push(
                WeeklyRule { day, start, end },
            ),
    {
        self.ensure_editable()?;
        let rule = WeeklyRule::new(day, start, end)?;
        self.break_rules.push(rule);
        Ok(())
    }
}

impl Calendar {
    /// Adds a dated open window.
    pub fn add_open_window(&mut self, start: i64, end: i64) -> (r: Result<(), TimeGridError>)
        requires
            wf(*old(self)),
            valid_instant(start as int),
            valid_instant(end as int),
        ensures
            wf(*final(self)),
            composite(*old(self)) ==> r == Err::<(), TimeGridError>(
                TimeGridError::CompositeNotEditable,
            ),
            !composite(*old(self)) && end < start ==> r == Err::<(), TimeGridError>(
                TimeGridError::EndBeforeStart,
            ),
            r is Ok <==> !composite(*old(self)) && start <= end,
            r is Err ==> *final(self) == *old(self),
            r is Ok ==> *final(self) == (Calendar {
                open_windows: final(self).open_windows,
                ..*old(self)
            }) && final(self).open_windows@ == old(self).open_windows@.push(Window { start, end }),
    {
        self.ensure_editable()?;
        let w = Window::new(start, end)?;
        self.open_windows.push(w);
        Ok(())
    }

    /// Adds a dated closed window.
    pub fn add_closed_window(&mut self, start: i64, end: i64) -> (r: Result<(), TimeGridError>)
        requires
            wf(*old(self)),
            valid_instant(start as int),
            valid_instant(end as int),
        ensures
            wf(*final(self)),
            composite(*old(self)) ==> r == Err::<(), TimeGridError>(
                TimeGridError::CompositeNotEditable,
            ),
            !composite(*old(self)) && end < start ==> r == Err::<(), TimeGridError>(
                TimeGridError::EndBeforeStart,
            ),
            r is Ok <==> !composite(*old(self)) && start <= end,
            r is Err ==> *final(self) == *old(self),
            r is Ok ==> *final(self) == (Calendar {
                closed_windows: final(self).closed_windows,
                ..*old(self)
            }) && final(self).closed_windows@ == old(self).closed_windows@.push(
                Window { start, end },
            ),
    {
        self.ensure_editable()?;
        let w = Window::new(start, end)?;
        self.closed_windows.push(w);
        Ok(())
    }

    /// Closes the whole of `date`; fails when the day after it is not representable.
    pub fn add_holiday(&mut self, date: i64) -> (r: Result<(), TimeGridError>)
        requires
            wf(*old(self)),
            valid_date(date as int),
        ensures
            wf(*final(self)),
            date == MAX_DATE ==> r == Err::<(), TimeGridError>(TimeGridError::DateOverflow),
            date < MAX_DATE && composite(*old(self)) ==> r == Err::<(), TimeGridError>(
                TimeGridError::CompositeNotEditable,
            ),
            r is Ok <==> date < MAX_DATE && !composite(*old(self)),
            r is Err ==> *final(self) == *old(self),
            r is Ok ==> *final(self) == (Calendar {
                closed_windows: final(self).closed_windows,
                ..*old(self)
            }) && final(self).closed_windows@ == old(self).closed_windows@.push(
                Window { start: at_time(date as int, 0) as i64, end: at_time(date + 1, 0) as i64 },
            ),
    {
        let start = instant_at(date, 0);
        if date >= MAX_DATE {
            return Err(TimeGridError::DateOverflow);
        }
        let end = instant_at(date + 1, 0);
        self.add_closed_window(start, end)
    }

    /// Adds a window in which the capacity is `capacity`.
    pub fn add_capacity_override(&mut self, start: i64, end: i64, capacity: i32) -> (r: Result<
        (),
        TimeGridError,
    >)
        requires
            wf(*old(self)),
            valid_instant(start as int),
            valid_instant(end as int),
        ensures
            wf(*final(self)),
            composite(*old(self)) ==> r == Err::<(), TimeGridError>(
                TimeGridError::CompositeNotEditable,
            ),
            !composite(*old(self)) && capacity < 0 ==> r == Err::<(), TimeGridError>(
                TimeGridError::NegativeCapacity,
            ),
            !composite(*old(self)) && capacity >= 0 && end < start ==> r == Err::<(), TimeGridError>(
                TimeGridError::EndBeforeStart,
            ),
            r is Ok <==> !composite(*old(self)) && capacity >= 0 && start <= end,
            r is Err ==> *final(self) == *old(self),
            r is Ok ==> *final(self) == (Calendar {
                capacity_overrides: final(self).capacity_overrides,
                ..*old(self)
            }) && final(self).capacity_overrides@ == old(self).capacity_overrides@.push(
                CapacityWindow { window: Window { start, end }, capacity },
            ),
    {
        self.ensure_editable()?;
        if capacity < 0 {
            return Err(TimeGridError::NegativeCapacity);
        }
        let w = Window::new(start, end)?;
        self.capacity_overrides.push(CapacityWindow { window: w, capacity });
        Ok(())
    }
}

/// Whether some rule of the list holds `t`.
pub fn rules_contain(rules: &Vec<WeeklyRule>, t: i64) -> (b: bool)
    requires
        valid_rules(rules@),
        valid_instant(t as int),
    ensures
        b == any_rule_contains(rules@, t as int),
{
    let mut i: usize = 0;
    while i < rules.len()
        invariant
            i <= rules.len(),
            valid_rules(rules@),
            valid_instant(t as int),
            forall|j: int| 0 <= j < i ==> !rule_contains(#[trigger] rules@[j], t as int),
        decreases rules.len() - i,
    {
        if rules[i].contains(t) {
            return true;
        }
        i = i + 1;
    }
    false
}

/// Whether some window of the list holds `t`.
pub fn windows_contain(ws: &Vec<Window>, t: i64) -> (b: bool)
    ensures
        b == window_list_has(ws@, t as int),
{
    let mut i: usize = 0;
    while i < ws.len()
        invariant
            i <= ws.len(),
            forall|j: int| 0 <= j < i ==> !(#[trigger] ws@[j]).has(t as int),
        decreases ws.len() - i,
    {
        if ws[i].contains(t) {
            return true;
        }
        i = i + 1;
    }
    false
}

/// Whether some entry of kind `kind` holds `t`.
pub fn entries_contain(es: &Vec<Entry>, kind: u8, t: i64) -> (b: bool)
    ensures
        b == entry_kind_has(es@, kind, t as int),
{
    let mut i: usize = 0;
    while i < es.len()
        invariant
            i <= es.len(),
            forall|j: int| 0 <= j < i ==> !((#[trigger] es@[j]).kind == kind && es@[j].window.has(t as int)),
        decreases es.len() - i,
    {
        if es[i].kind == kind && es[i].window.contains(t) {
            return true;
        }
        i = i + 1;
    }
    false
}

/// The index of the first entry with id `id`, or -1.
pub open spec fn position_of(es: Seq<Entry>, id: Seq<char>) -> int
    decreases es.len(),
{
    if es.len() == 0 {
        -1
    } else {
        let p = position_of(es.drop_last(), id);
        if p >= 0 {
            p
        } else if es.last().id@ == id {
            es.len() - 1
        } else {
            -1
        }
    }
}

pub proof fn lemma_position_of(es: Seq<Entry>, id: Seq<char>)
    ensures
        -1 <= position_of(es, id) < es.len(),
        position_of(es, id) >= 0 ==> es[position_of(es, id)].id@ == id,
        position_of(es, id) >= 0 ==> forall|j: int| 0 <= j < position_of(es, id) ==> (#[trigger] es[j]).id@ != id,
        position_of(es, id) == -1 <==> forall|j: int| 0 <= j < es.len() ==> (#[trigger] es[j]).id@ != id,
    decreases es.len(),
{
    if es.len() > 0 {
        lemma_position_of(es.drop_last(), id);
        let p = position_of(es.drop_last(), id);
        assert forall|j: int| 0 <= j < es.len() - 1 implies (#[trigger] es[j]).id@ == es.drop_last()[j].id@ by {}
        if p < 0 && es.last().id@ != id {
            assert forall|j: int| 0 <= j < es.len() implies (#[trigger] es[j]).id@ != id by {
                if j < es.len() - 1 {
                    assert(es.drop_last()[j] == es[j]);
                }
            }
        }
    }
}

/// The index of the first entry whose id is `id`.
pub fn entry_position(es: &Vec<Entry>, id: &String) -> (r: Option<usize>)
    ensures
        r is None <==> position_of(es@, id@) == -1,
        r matches Some(i) ==> i == position_of(es@, id@) && i < es.len(),
{
    let mut i: usize = 0;
    proof {
        lemma_position_of(es@, id@);
    }
    while i < es.len()
        invariant
            i <= es.len(),
            forall|j: int| 0 <= j < i ==> (#[trigger] es@[j]).id@ != id@,
            -1 <= position_of(es@, id@) < es@.len(),
            position_of(es@, id@) >= 0 ==> es@[position_of(es@, id@)].id@ == id@,
            position_of(es@, id@) >= 0 ==> forall|j: int| 0 <= j < position_of(es@, id@) ==> (#[trigger] es@[j]).id@ != id@,
            position_of(es@, id@) == -1 <==> forall|j: int| 0 <= j < es@.len() ==> (#[trigger] es@[j]).id@ != id@,
        decreases es.len() - i,
    {
        if es[i].id == *id {
            return Some(i);
        }
        i = i + 1;
    }
    None
}

/// Why `set_entry` refuses its arguments on an editable calendar, if it does.
pub open spec fn entry_error(id: Seq<char>, kind: u8, start: i64, end: i64, capacity: i32) -> Option<TimeGridError> {
    if blank(id) {
        Some(TimeGridError::EmptyEntryId)
    } else if kind == 2 && capacity < 0 {
        Some(TimeGridError::NegativeCapacity)
    } else if end < start {
        Some(TimeGridError::EndBeforeStart)
    } else {
        None
    }
}

/// The entries after setting `e`: it replaces the entry with its id, or is appended.
pub open spec fn entries_with(es: Seq<Entry>, e: Entry) -> Seq<Entry> {
    let p = position_of(es, e.id@);
    if p >= 0 {
        es.update(p, e)
    } else {
        es.push(e)
    }
}

/// Fails with `EmptyEntryId` when the id is blank.
pub fn validate_entry_id(id: &str) -> (r: Result<(), TimeGridError>)
    ensures
        blank(id@) ==> r == Err::<(), TimeGridError>(TimeGridError::EmptyEntryId),
        !blank(id@) ==> r is Ok,
{
    if is_blank(id) {
        Err(TimeGridError::EmptyEntryId)
    } else {
        Ok(())
    }
}

/// Fails with `RequiredCapacityNotPositive` when the required capacity is not positive.
pub fn validate_positive_capacity(minimum_capacity: i32) -> (r: Result<(), TimeGridError>)
    ensures
        minimum_capacity <= 0 ==> r == Err::<(), TimeGridError>(
            TimeGridError::RequiredCapacityNotPositive,
        ),
        minimum_capacity > 0 ==> r is Ok,
{
    if minimum_capacity <= 0 {
        Err(TimeGridError::RequiredCapacityNotPositive)
    } else {
        Ok(())
    }
}

impl Calendar {
    /// Adds the same open rule on Monday through Friday.
    pub fn add_weekday_open_rule(&mut self, start: i64, end: i64) -> (r: Result<(), TimeGridError>)
        requires
            wf(*old(self)),
            valid_time(start as int),
            valid_time(end as int),
        ensures
            wf(*final(self)),
            composite(*old(self)) ==> r == Err::<(), TimeGridError>(
                TimeGridError::CompositeNotEditable,
            ),
            !composite(*old(self)) && start == end ==> r == Err::<(), TimeGridError>(
                TimeGridError::SameStartAndEnd,
            ),
            r is Ok <==> !composite(*old(self)) && start != end,
            r is Err ==> *final(self) == *old(self),
            r is Ok ==> *final(self) == (Calendar {
                open_rules: final(self).open_rules,
                ..*old(self)
            }) && final(self).open_rules@ == old(self).open_rules@ + weekday_rules(start, end),
    {
        let mut day: u8 = 1;
        while day <= 5
            invariant
                1 <= day <= 6,
                wf(*self),
                valid_time(start as int),
                valid_time(end as int),
                composite(*self) == composite(*old(self)),
                day > 1 ==> !composite(*old(self)) && start != end,
                day == 1 ==> *self == *old(self),
                *self == (Calendar { open_rules: self.open_rules, ..*old(self) }),
                self.open_rules@ == old(self).open_rules@ + weekday_rules(start, end).take(day - 1),
            decreases 6 - day,
        {
            let ghost before = self.open_rules@;
            let step = self.add_open_rule(day, start, end);
            if step.is_err() {
                proof {
                    assert(day == 1);
                }
                return step;
            }
            proof {
                assert(weekday_rules(start, end).take(day as int) =~= weekday_rules(start, end).take(
                    day - 1,
                ).push(WeeklyRule { day, start, end }));
            }
            day = day + 1;
        }
        proof {
            assert(weekday_rules(start, end).take(5) =~= weekday_rules(start, end));
        }
        Ok(())
    }

    /// Adds the same break rule on Monday through Friday.
    pub fn add_weekday_break_rule(&mut self, start: i64, end: i64) -> (r: Result<(), TimeGridError>)
        requires
            wf(*old(self)),
            valid_time(start as int),
            valid_time(end as int),
        ensures
            wf(*final(self)),
            composite(*old(self)) ==> r == Err::<(), TimeGridError>(
                TimeGridError::CompositeNotEditable,
            ),
            !composite(*old(self)) && start == end ==> r == Err::<(), TimeGridError>(
                TimeGridError::SameStartAndEnd,
            ),
            r is Ok <==> !composite(*old(self)) && start != end,
            r is Err ==> *final(self) == *old(self),
            r is Ok ==> *final(self) == (Calendar {
                break_rules: final(self).break_rules,
                ..*old(self)
            }) && final(self).break_rules@ == old(self).break_rules@ + weekday_rules(start, end),
    {
        let mut day: u8 = 1;
        while day <= 5
            invariant
                1 <= day <= 6,
                wf(*self),
                valid_time(start as int),
                valid_time(end as int),
                composite(*self) == composite(*old(self)),
                day > 1 ==> !composite(*old(self)) && start != end,
                day == 1 ==> *self == *old(self),
                *self == (Calendar { break_rules: self.break_rules, ..*old(self) }),
                self.break_rules@ == old(self).break_rules@ + weekday_rules(start, end).take(day - 1),
            decreases 6 - day,
        {
            let step = self.add_break_rule(day, start, end);
            if step.is_err() {
                proof {
                    assert(day == 1);
                }
                return step;
            }
            proof {
                assert(weekday_rules(start, end).take(day as int) =~= weekday_rules(start, end).take(
                    day - 1,
                ).push(WeeklyRule { day, start, end }));
            }
            day = day + 1;
        }
        proof {
            assert(weekday_rules(start, end).take(5) =~= weekday_rules(start, end));
        }
        Ok(())
    }

    /// Sets the entry with id `id`, replacing an entry with the same id.
    pub fn set_entry(&mut self, id: String, kind: u8, start: i64, end: i64, capacity: i32) -> (r: Result<
        (),
        TimeGridError,
    >)
        requires
            wf(*old(self)),
            valid_instant(start as int),
            valid_instant(end as int),
        ensures
            wf(*final(self)),
            composite(*old(self)) ==> r == Err::<(), TimeGridError>(
                TimeGridError::CompositeNotEditable,
            ),
            !composite(*old(self)) && entry_error(id@, kind, start, end, capacity) is Some ==> r
                == Err::<(), TimeGridError>(entry_error(id@, kind, start, end, capacity)->0),
            r is Ok <==> !composite(*old(self)) && entry_error(id@, kind, start, end, capacity) is None,
            r is Err ==> *final(self) == *old(self),
            r is Ok ==> *final(self) == (Calendar { entries: final(self).entries, ..*old(self) })
                && final(self).entries@ == entries_with(
                old(self).entries@,
                Entry { id, kind, window: Window { start, end }, capacity },
            ),
    {
        self.ensure_editable()?;
        validate_entry_id(id.as_str())?;
        if kind == 2 && capacity < 0 {
            return Err(TimeGridError::NegativeCapacity);
        }
        let window = Window::new(start, end)?;
        let ghost new_entry = Entry { id, kind, window: Window { start, end }, capacity };
        let position = entry_position(&self.entries, &id);
        let entry = Entry { id, kind, window, capacity };
        proof {
            lemma_position_of(self.entries@, id@);
        }
        match position {
            Some(index) => {
                self.entries.set(index, entry);
                proof {
                    let es = self.entries@;
                    assert forall|i: int, j: int| 0 <= i < j < es.len() implies (#[trigger] es[i]).id@ != (#[trigger] es[j]).id@ by {
                        if i == index {
                            assert(old(self).entries@[j] == es[j]);
                        } else if j == index {
                            assert(old(self).entries@[i] == es[i]);
                        } else {
                            assert(old(self).entries@[i] == es[i] && old(self).entries@[j] == es[j]);
                        }
                    }
                }
            }
            None => {
                self.entries.push(entry);
                proof {
                    let es = self.entries@;
                    assert forall|i: int, j: int| 0 <= i < j < es.len() implies (#[trigger] es[i]).id@ != (#[trigger] es[j]).id@ by {
                        if j == es.len() - 1 {
                            assert(old(self).entries@[i] == es[i]);
                        } else {
                            assert(old(self).entries@[i] == es[i] && old(self).entries@[j] == es[j]);
                        }
                    }
                }
            }
        }
        Ok(())
    }

    /// Whether the calendar can work at `instant`: for a composite, every
    /// component has capacity there; otherwise an open rule, window or entry
    /// holds it and no break rule, closed window or entry does.
    pub fn is_open_by_calendar(&self, instant: i64) -> (b: bool)
        requires
            wf(*self),
            valid_instant(instant as int),
        ensures
            b == open_at(*self, instant as int),
        decreases self, 1int,
    {
        if self.is_composite() {
            let mut i: usize = 0;
            while i < self.components.len()
                invariant
                    i <= self.components@.len(),
                    wf(*self),
                    composite(*self),
                    valid_instant(instant as int),
                    forall|j: int| 0 <= j < i ==> capacity_at(#[trigger] self.components@[j], instant as int) > 0,
                decreases self.components@.len() - i,
            {
                proof {
                    assert(decreases_to!(self => self.components));
                    assert(decreases_to!(self.components => self.components@));
                    assert(decreases_to!(self.components@ => self.components@[i as int]));
                    assert(wf(self.components@[i as int]));
                }
                if self.components[i].get_capacity_at(instant) <= 0 {
                    return false;
                }
                i = i + 1;
            }
            return true;
        }
        let has_open = rules_contain(&self.open_rules, instant) || windows_contain(
            &self.open_windows,
            instant,
        ) || entries_contain(&self.entries, 0, instant);
        if !has_open {
            return false;
        }
        !rules_contain(&self.break_rules, instant) && !windows_contain(&self.closed_windows, instant)
            && !entries_contain(&self.entries, 1, instant)
    }

    /// The capacity at `instant`.
    pub fn get_capacity_at(&self, instant: i64) -> (c: i32)
        requires
            wf(*self),
            valid_instant(instant as int),
        ensures
            c == capacity_at(*self, instant as int),
            c >= 0,
        decreases self, 2int,
    {
        proof {
            lemma_capacity_bounds(*self, instant as int);
        }
        if self.is_composite() {
            let mut capacity: i32 = i32::MAX;
            let mut i: usize = 0;
            while i < self.components.len()
                invariant
                    i <= self.components@.len(),
                    wf(*self),
                    composite(*self),
                    valid_instant(instant as int),
                    capacity == components_min(self.components@, instant as int, i as int),
                    capacity != 0,
                decreases self.components@.len() - i,
            {
                proof {
                    assert(decreases_to!(self => self.components));
                    assert(decreases_to!(self.components => self.components@));
                    assert(decreases_to!(self.components@ => self.components@[i as int]));
                    assert(wf(self.components@[i as int]));
                }
                let component_capacity = self.components[i].get_capacity_at(instant);
                if component_capacity == 0 {
                    proof {
                        lemma_components_min_zero(
                            self.components@,
                            instant as int,
                            i + 1,
                            self.components@.len() as int,
                        );
                    }
                    return 0;
                }
                if component_capacity < capacity {
                    capacity = component_capacity;
                }
                i = i + 1;
            }
            return if capacity == i32::MAX {
                0
            } else {
                capacity
            };
        }
        if !self.is_open_by_calendar(instant) {
            return 0;
        }
        let mut capacity = self.default_capacity;
        let mut i: usize = 0;
        while i < self.capacity_overrides.len()
            invariant
                i <= self.capacity_overrides@.len(),
                capacity == override_cap(
                    self.capacity_overrides@.take(i as int),
                    instant as int,
                    self.default_capacity as int,
                ),
            decreases self.capacity_overrides@.len() - i,
        {
            proof {
                assert(self.capacity_overrides@.take(i + 1).drop_last() =~= self.capacity_overrides@.take(
                    i as int,
                ));
            }
            if self.capacity_overrides[i].window.contains(instant) {
                capacity = self.capacity_overrides[i].capacity;
            }
            i = i + 1;
        }
        proof {
            assert(self.capacity_overrides@.take(self.capacity_overrides@.len() as int) =~= self.capacity_overrides@);
        }
        let ghost base = capacity as int;
        let mut k: usize = 0;
        while k < self.entries.len()
            invariant
                k <= self.entries@.len(),
                capacity == entry_cap(self.entries@.take(k as int), instant as int, base),
            decreases self.entries@.len() - k,
        {
            proof {
                assert(self.entries@.take(k + 1).drop_last() =~= self.entries@.take(k as int));
            }
            if self.entries[k].kind == 2 && self.entries[k].window.contains(instant) {
                capacity = self.entries[k].capacity;
            }
            k = k + 1;
        }
        proof {
            assert(self.entries@.take(self.entries@.len() as int) =~= self.entries@);
        }
        capacity
    }
}

/// Once a component has zero capacity, the running minimum stays zero.
proof fn lemma_components_min_zero(cs: Seq<Calendar>, t: int, n: int, m: int)
    requires
        0 < n <= m <= cs.len(),
        capacity_at(cs[n - 1], t) == 0,
    ensures
        components_min(cs, t, m) == 0,
    decreases m - n,
{
    if m > n {
        lemma_components_min_zero(cs, t, n, m - 1);
    }
}

/// The five weekday rules, Monday through Friday.
pub open spec fn weekday_rules(start: i64, end: i64) -> Seq<WeeklyRule> {
    seq![
        WeeklyRule { day: 1, start, end },
        WeeklyRule { day: 2, start, end },
        WeeklyRule { day: 3, start, end },
        WeeklyRule { day: 4, start, end },
        WeeklyRule { day: 5, start, end },
    ]
}

/// Component lists whose calendars agree on every capacity give the same running minimum.
proof fn lemma_components_min_eq(xs: Seq<Calendar>, ys: Seq<Calendar>, t: int, n: int)
    requires
        xs.len() == ys.len(),
        forall|i: int| 0 <= i < xs.len() ==> capacity_at(#[trigger] xs[i], t) == capacity_at(ys[i], t),
    ensures
        components_min(xs, t, n) == components_min(ys, t, n),
    decreases n,
{
    if n > 0 && n <= xs.len() {
        lemma_components_min_eq(xs, ys, t, n - 1);
    }
}

/// Calendars holding the same rules, windows, entries and components are
/// equally well formed and have the same capacity everywhere.
pub proof fn lemma_same_calendar(a: Calendar, b: Calendar)
    requires
        same_calendar(a, b),
    ensures
        wf(a) == wf(b),
        composite(a) == composite(b),
        forall|t: int| #[trigger] capacity_at(a, t) == capacity_at(b, t),
    decreases a,
{
    if composite(a) {
        assert forall|i: int| 0 <= i < a.components@.len() implies (wf(#[trigger] a.components@[i]) == wf(
            b.components@[i],
        )) && forall|t: int| #[trigger] capacity_at(a.components@[i], t) == capacity_at(b.components@[i], t) by {
            assert(decreases_to!(a => a.components));
            assert(decreases_to!(a.components => a.components@));
            assert(decreases_to!(a.components@ => a.components@[i]));
            lemma_same_calendar(a.components@[i], b.components@[i]);
        }
        assert forall|t: int| #[trigger] capacity_at(a, t) == capacity_at(b, t) by {
            lemma_components_min_eq(a.components@, b.components@, t, a.components@.len() as int);
        }
        if wf(a) {
            assert forall|i: int| 0 <= i < b.components@.len() implies wf(#[trigger] b.components@[i]) by {
                assert(wf(a.components@[i]));
            }
        }
        if wf(b) {
            assert forall|i: int| 0 <= i < a.components@.len() implies wf(#[trigger] a.components@[i]) by {
                assert(wf(b.components@[i]));
            }
        }
    }
}

/// `same_calendar` is symmetric.
pub proof fn lemma_same_calendar_symmetric(a: Calendar, b: Calendar)
    requires
        same_calendar(a, b),
    ensures
        same_calendar(b, a),
    decreases a,
{
    assert forall|i: int| 0 <= i < b.components@.len() implies same_calendar(#[trigger] b.components@[i], a.components@[i]) by {
        assert(decreases_to!(a => a.components));
        assert(decreases_to!(a.components => a.components@));
        assert(decreases_to!(a.components@ => a.components@[i]));
        lemma_same_calendar_symmetric(a.components@[i], b.components@[i]);
    }
}

} // verus!
