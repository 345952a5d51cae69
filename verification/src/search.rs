//! Searches along the calendar: chunked forward scans for open time, working
//! durations, slots, and transitions around an instant.
use vstd::prelude::*;
use crate::error::TimeGridError;
use crate::time::{
    Window, valid_instant, core_range, MICROS_PER_DAY, DEFAULT_SEARCH_DAYS, DEFAULT_SEARCH_YEARS_DAYS,
    MAX_INSTANT, MIN_INSTANT, MAX_SPAN, valid_span,
};
use crate::windows::{covers_at, canonical, within};
use crate::calendar::{Calendar, wf, composite, capacity_at};
use crate::states::{win_capacity, query_value};
use crate::measure::{
    count_where, total_span, lemma_count_canonical, lemma_count_split, lemma_count_all, lemma_count_none,
    lemma_count_monotone, lemma_count_bounds, lemma_count_same,
};

verus! {

broadcast use vstd::seq_lib::group_seq_properties;

/// Seven days in microseconds.
pub open spec fn week_span() -> int {
    DEFAULT_SEARCH_DAYS * MICROS_PER_DAY
}

/// The length of a search chunk for slots of `span`.
pub open spec fn chunk_size(span: int) -> int {
    if span >= week_span() {
        span + week_span()
    } else {
        week_span()
    }
}

/// The end of the chunk starting at `cursor`.
pub open spec fn chunk_end(cursor: int, until: int, span: int) -> int {
    if cursor + chunk_size(span) > until {
        until
    } else {
        cursor + chunk_size(span)
    }
}

/// Where the chunk after the one starting at `cursor` starts: `span` before the
/// end of this one, so that a slot of `span` across the boundary is seen whole.
pub open spec fn next_cursor(cursor: int, until: int, span: int) -> int {
    let end = chunk_end(cursor, until, span);
    let next = if span > 0 && end < until {
        end - span
    } else {
        end
    };
    if next <= cursor {
        end
    } else {
        next
    }
}

/// Every chunk from `cursor` on ends at a representable instant before it is cut at `until`.
pub open spec fn chunks_fit(cursor: int, until: int, span: int) -> bool
    decreases until - cursor,
{
    if cursor >= until || span < 0 {
        true
    } else if cursor + chunk_size(span) > MAX_INSTANT {
        false
    } else {
        chunks_fit(next_cursor(cursor, until, span), until, span)
    }
}

/// The chunks cover `[start, until)` in order, consecutive chunks following `next_cursor`.
pub open spec fn chunk_chain(chunks: Seq<Window>, start: int, until: int, span: int) -> bool {
    &&& (chunks.len() == 0 <==> start >= until)
    &&& chunks.len() > 0 ==> chunks[0].start == start && chunks.last().end == until
    &&& forall|i: int| 0 <= i < chunks.len() ==> (#[trigger] chunks[i]).start < chunks[i].end
        && chunks[i].end == chunk_end(chunks[i].start as int, until, span)
    &&& forall|i: int| 0 <= i < chunks.len() - 1 ==> (#[trigger] chunks[i + 1]).start == next_cursor(
        chunks[i].start as int,
        until,
        span,
    )
}

/// The windows searched from `start` up to `until`, in chunks of a week, or of a
/// week more than `minimum_span` when that is longer.
pub fn search_chunks(start: i64, until: i64, minimum_span: i128) -> (chunks: Vec<Window>)
    requires
        valid_instant(start as int),
        valid_instant(until as int),
        0 <= minimum_span <= MAX_SPAN,
        chunks_fit(start as int, until as int, minimum_span as int),
    ensures
        chunk_chain(chunks@, start as int, until as int, minimum_span as int),
        forall|i: int| 0 <= i < chunks.len() ==> start <= (#[trigger] chunks@[i]).start && chunks@[i].end <= until,
{
    assert(DEFAULT_SEARCH_DAYS * MICROS_PER_DAY == 604_800_000_000);
    let week: i128 = DEFAULT_SEARCH_DAYS as i128 * MICROS_PER_DAY as i128;
    let chunk: i128 = if minimum_span >= week {
        minimum_span + week
    } else {
        week
    };
    let mut chunks: Vec<Window> = Vec::new();
    let mut cursor = start;
    while cursor < until
        invariant
            valid_instant(start as int),
            valid_instant(until as int),
            0 <= minimum_span <= MAX_SPAN,
            chunk == chunk_size(minimum_span as int),
            week == week_span(),
            start <= cursor,
            cursor <= until || chunks.len() == 0,
            chunks_fit(cursor as int, until as int, minimum_span as int),
            chunks.len() == 0 ==> cursor == start,
            chunks.len() > 0 ==> chunks@[0].start == start && cursor == next_cursor(
                chunks@.last().start as int,
                until as int,
                minimum_span as int,
            ) && chunks@.last().end <= until,
            chunks.len() > 0 && cursor >= until ==> chunks@.last().end == until,
            forall|i: int| 0 <= i < chunks.len() ==> (#[trigger] chunks@[i]).start < chunks@[i].end
                && chunks@[i].end == chunk_end(chunks@[i].start as int, until as int, minimum_span as int),
            forall|i: int| 0 <= i < chunks.len() - 1 ==> (#[trigger] chunks@[i + 1]).start == next_cursor(
                chunks@[i].start as int,
                until as int,
                minimum_span as int,
            ),
            forall|i: int| 0 <= i < chunks.len() ==> start <= (#[trigger] chunks@[i]).start && chunks@[i].end <= until,
        decreases until - cursor,
    {
        let ghost old_c = chunks@;
        let end_wide: i128 = cursor as i128 + chunk;
        let end: i64 = if end_wide > until as i128 {
            until
        } else {
            end_wide as i64
        };
        chunks.push(Window { start: cursor, end });
        let next: i128 = if minimum_span > 0 && end < until {
            end as i128 - minimum_span
        } else {
            end as i128
        };
        let new_cursor: i64 = if next <= cursor as i128 {
            end
        } else {
            next as i64
        };
        proof {
            assert(new_cursor == next_cursor(cursor as int, until as int, minimum_span as int));
            assert forall|i: int| 0 <= i < chunks.len() - 1 implies (#[trigger] chunks@[i + 1]).start == next_cursor(
                chunks@[i].start as int,
                until as int,
                minimum_span as int,
            ) by {
                if i + 1 < old_c.len() {
                    assert(chunks@[i] == old_c[i] && chunks@[i + 1] == old_c[i + 1]);
                } else {
                    assert(chunks@[i] == old_c.last());
                }
            }
            assert forall|i: int| 0 <= i < chunks.len() implies (#[trigger] chunks@[i]).start < chunks@[i].end
                && chunks@[i].end == chunk_end(chunks@[i].start as int, until as int, minimum_span as int) by {
                if i < old_c.len() {
                    assert(chunks@[i] == old_c[i]);
                }
            }
            assert forall|i: int| 0 <= i < chunks.len() implies start <= (#[trigger] chunks@[i]).start && chunks@[i].end <= until by {
                if i < old_c.len() {
                    assert(chunks@[i] == old_c[i]);
                }
            }
            if old_c.len() > 0 {
                assert(chunks@[0] == old_c[0]);
            }
        }
        cursor = new_cursor;
    }
    chunks
}

/// Whether every chunk of a search from `start` to `until` for slots of `span`
/// ends at a representable instant before it is cut at `until`.
pub fn chunks_fit_check(start: i64, until: i64, span: i128) -> (b: bool)
    requires
        valid_instant(start as int),
        valid_instant(until as int),
        0 <= span <= MAX_SPAN,
    ensures
        b == chunks_fit(start as int, until as int, span as int),
{
    assert(DEFAULT_SEARCH_DAYS * MICROS_PER_DAY == 604_800_000_000);
    let week: i128 = DEFAULT_SEARCH_DAYS as i128 * MICROS_PER_DAY as i128;
    let chunk: i128 = if span >= week {
        span + week
    } else {
        week
    };
    let mut cursor: i64 = start;
    while cursor < until
        invariant
            valid_instant(until as int),
            MIN_INSTANT <= cursor,
            0 <= span <= MAX_SPAN,
            chunk == chunk_size(span as int),
            week == week_span(),
            chunks_fit(start as int, until as int, span as int) == chunks_fit(cursor as int, until as int, span as int),
        decreases until - cursor,
    {
        if cursor as i128 + chunk > MAX_INSTANT as i128 {
            return false;
        }
        let end: i64 = if cursor as i128 + chunk > until as i128 {
            until
        } else {
            (cursor as i128 + chunk) as i64
        };
        let next: i128 = if span > 0 && end < until {
            end as i128 - span
        } else {
            end as i128
        };
        let new_cursor: i64 = if next <= cursor as i128 {
            end
        } else {
            next as i64
        };
        proof {
            assert(new_cursor == next_cursor(cursor as int, until as int, span as int));
        }
        cursor = new_cursor;
    }
    true
}

/// Whether a search from `start` for `duration` of working time, up to
/// `search_until` (five years by default), stays among the representable instants.
pub fn work_search_check(start: i64, duration: i128, search_until: Option<i64>) -> (b: bool)
    requires
        valid_instant(start as int),
    ensures
        b == work_search_fits(start as int, duration as int, search_until),
{
    if duration <= 0 {
        return true;
    }
    let until: i64 = match search_until {
        Some(u) => u,
        None => {
            if start as i128 + DEFAULT_SEARCH_YEARS_DAYS as i128 * MICROS_PER_DAY as i128 > MAX_INSTANT as i128 {
                return false;
            }
            start + DEFAULT_SEARCH_YEARS_DAYS * MICROS_PER_DAY
        },
    };
    if until < MIN_INSTANT || until > MAX_INSTANT {
        return false;
    }
    chunks_fit_check(start, until, 0)
}

/// Whether a search from `start` for a slot of `duration`, up to
/// `search_until` (five years by default), stays among the representable instants.
pub fn slot_search_check(start: i64, duration: i128, minimum_capacity: i32, search_until: Option<i64>) -> (b: bool)
    requires
        valid_instant(start as int),
        valid_span(duration as int),
    ensures
        b == slot_search_fits(start as int, duration as int, minimum_capacity as int, search_until),
{
    if duration < 0 || minimum_capacity <= 0 {
        return true;
    }
    let until: i64 = match search_until {
        Some(u) => u,
        None => {
            if start as i128 + DEFAULT_SEARCH_YEARS_DAYS as i128 * MICROS_PER_DAY as i128 > MAX_INSTANT as i128 {
                return false;
            }
            start + DEFAULT_SEARCH_YEARS_DAYS * MICROS_PER_DAY
        },
    };
    if until < MIN_INSTANT || until > MAX_INSTANT {
        return false;
    }
    chunks_fit_check(start, until, duration)
}

/// Whether the search range around `instant` stays among the representable instants.
pub fn radius_check(instant: i64, search_radius: Option<i128>) -> (b: bool)
    requires
        valid_instant(instant as int),
    ensures
        b == radius_fits(instant as int, search_radius),
{
    assert(DEFAULT_SEARCH_DAYS * MICROS_PER_DAY == 604_800_000_000);
    let radius: i128 = match search_radius {
        Some(value) => value,
        None => DEFAULT_SEARCH_DAYS as i128 * MICROS_PER_DAY as i128,
    };
    if radius <= 0 {
        return true;
    }
    if radius > MAX_INSTANT as i128 - MIN_INSTANT as i128 {
        return false;
    }
    let low = instant as i128 - radius;
    let high = instant as i128 + radius;
    MIN_INSTANT as i128 <= low && high <= MAX_INSTANT as i128
}

/// The window of `radius` (a week by default) on either side of `instant`;
/// fails when the radius is not positive.
pub fn search_window_around(instant: i64, search_radius: Option<i128>) -> (r: Result<Window, TimeGridError>)
    requires
        valid_instant(instant as int),
        radius_fits(instant as int, search_radius),
    ensures
        radius_of(search_radius) <= 0 ==> r == Err::<Window, TimeGridError>(TimeGridError::SearchRadiusNotPositive),
        radius_of(search_radius) > 0 ==> r == Ok::<Window, TimeGridError>(Window {
            start: (instant - radius_of(search_radius)) as i64,
            end: (instant + radius_of(search_radius)) as i64,
        }),
        r matches Ok(w) ==> valid_instant(w.start as int) && valid_instant(w.end as int) && w.start < w.end,
{
    let radius: i128 = match search_radius {
        Some(value) => value,
        None => DEFAULT_SEARCH_DAYS as i128 * MICROS_PER_DAY as i128,
    };
    if radius <= 0 {
        return Err(TimeGridError::SearchRadiusNotPositive);
    }
    Ok(Window { start: (instant as i128 - radius) as i64, end: (instant as i128 + radius) as i64 })
}

/// The search radius, a week when none is given.
pub open spec fn radius_of(search_radius: Option<i128>) -> int {
    match search_radius {
        Some(value) => value as int,
        None => DEFAULT_SEARCH_DAYS * MICROS_PER_DAY,
    }
}

/// A positive radius around `instant` stays among the representable instants.
pub open spec fn radius_fits(instant: int, search_radius: Option<i128>) -> bool {
    radius_of(search_radius) <= 0 || (valid_instant(instant - radius_of(search_radius))
        && valid_instant(instant + radius_of(search_radius)))
}

/// The end of a forward search, by default five years after `start`.
pub open spec fn search_end(start: int, search_until: Option<i64>) -> int {
    match search_until {
        Some(u) => u as int,
        None => start + DEFAULT_SEARCH_YEARS_DAYS * MICROS_PER_DAY,
    }
}

/// `p` is, on `[a, b)`, the working predicate of the calendar that its open
/// windows compute exactly: the capacity away from the first and last
/// representable days, or the expanded windows of a calendar without components.
pub open spec fn exact_open(c: Calendar, a: int, b: int, p: spec_fn(int) -> bool) -> bool {
    ||| (core_range(a, b) && forall|t: int| #[trigger] p(t) == (capacity_at(c, t) >= 1))
    ||| (!composite(c) && forall|t: int| #[trigger] p(t) == (win_capacity(c, t) >= 1))
}

/// The open windows of a sub-range hold exactly the instants where `p` holds.
proof fn lemma_open_windows_exact(c: Calendar, a: int, b: int, p: spec_fn(int) -> bool, x: int, y: int, ws: Seq<Window>)
    requires
        exact_open(c, a, b, p),
        a <= x <= y <= b,
        core_range(x, y) ==> forall|t: int| x <= t < y ==> (#[trigger] covers_at(ws, t) <==> capacity_at(c, t) >= 1),
        !composite(c) ==> forall|t: int| x <= t < y ==> (#[trigger] covers_at(ws, t) <==> win_capacity(c, t) >= 1),
    ensures
        forall|t: int| x <= t < y ==> (#[trigger] covers_at(ws, t) <==> p(t)),
{
    if core_range(a, b) && forall|t: int| #[trigger] p(t) == (capacity_at(c, t) >= 1) {
        assert(core_range(x, y));
        assert forall|t: int| x <= t < y implies (#[trigger] covers_at(ws, t) <==> p(t)) by {
            assert(p(t) == (capacity_at(c, t) >= 1));
        }
    } else {
        assert forall|t: int| x <= t < y implies (#[trigger] covers_at(ws, t) <==> p(t)) by {
            assert(p(t) == (win_capacity(c, t) >= 1));
        }
    }
}

/// The working predicate of the calendar over `[a, b)`.
pub open spec fn work_pred(c: Calendar, a: int, b: int) -> spec_fn(int) -> bool {
    if core_range(a, b) {
        |t: int| capacity_at(c, t) >= 1
    } else {
        |t: int| win_capacity(c, t) >= 1
    }
}

/// The working predicate is computed exactly away from the edges of time, and
/// everywhere for a calendar without components.
pub open spec fn exact_range(c: Calendar, a: int, b: int) -> bool {
    core_range(a, b) || !composite(c)
}

pub proof fn lemma_work_pred_exact(c: Calendar, a: int, b: int)
    requires
        exact_range(c, a, b),
    ensures
        exact_open(c, a, b, work_pred(c, a, b)),
{
}

/// The start of the chunk of a forward search from `a` that holds `t`: such
/// searches cut `[a, ..)` into back-to-back chunks of a week.
pub open spec fn chunk_of(a: int, t: int) -> int {
    a + (t - a) / week_span() * week_span()
}

/// The working predicate of a forward search from `a`: at each instant, what
/// the open windows of its chunk say.
pub open spec fn chunk_pred(c: Calendar, a: int) -> spec_fn(int) -> bool {
    |t: int| query_value(c, chunk_of(a, t), t) >= 1
}

/// The chunks of a search for working time start a whole number of weeks
/// after its start, and are at most a week long.
proof fn lemma_work_chunks(chunks: Seq<Window>, start: int, until: int, span: int)
    requires
        span == 0,
        chunk_chain(chunks, start, until, span),
        forall|i: int| 0 <= i < chunks.len() ==> start <= (#[trigger] chunks[i]).start && chunks[i].end <= until,
    ensures
        forall|i: int| 0 <= i < chunks.len() ==> (#[trigger] chunks[i]).start == start + i * week_span() && chunks[i].end
            <= chunks[i].start + week_span(),
{
    assert forall|i: int| 0 <= i < chunks.len() implies (#[trigger] chunks[i]).start == start + i * week_span()
        && chunks[i].end <= chunks[i].start + week_span() by {
        lemma_work_chunk(chunks, start, until, span, i);
    }
}

proof fn lemma_work_chunk(chunks: Seq<Window>, start: int, until: int, span: int, i: int)
    requires
        span == 0,
        chunk_chain(chunks, start, until, span),
        forall|i: int| 0 <= i < chunks.len() ==> start <= (#[trigger] chunks[i]).start && chunks[i].end <= until,
        0 <= i < chunks.len(),
    ensures
        chunks[i].start == start + i * week_span(),
        chunks[i].end <= chunks[i].start + week_span(),
    decreases i,
{
    assert(chunks[i].end == chunk_end(chunks[i].start as int, until, span));
    if i > 0 {
        lemma_work_chunk(chunks, start, until, span, i - 1);
        let j = i - 1;
        assert(chunks[j + 1].start == next_cursor(chunks[j].start as int, until, span));
        assert(chunks[i - 1].end == chunk_end(chunks[i - 1].start as int, until, span));
        assert(chunks[i].start < chunks[i].end);
        assert(chunks[i - 1].start + week_span() <= until);
    }
}

/// Inside the chunk starting `i` weeks after `a`, an instant's chunk is that one.
proof fn lemma_chunk_of(a: int, i: int, t: int)
    requires
        i >= 0,
        a + i * week_span() <= t < a + i * week_span() + week_span(),
    ensures
        chunk_of(a, t) == a + i * week_span(),
{
    vstd::arithmetic::div_mod::lemma_fundamental_div_mod_converse(
        t - a,
        week_span(),
        i,
        t - a - i * week_span(),
    );
}

/// A step taken from the `j`-th open window of a chunk of a search for working
/// time is cut only where it must be.
proof fn lemma_step_cut(
    ws: Seq<Window>,
    j: int,
    chunk: Window,
    start: int,
    k: int,
    u: int,
    p: spec_fn(int) -> bool,
    consumed: int,
    remaining: int,
)
    requires
        canonical(ws),
        within(ws, chunk),
        0 <= j < ws.len(),
        k >= 0,
        chunk.start == start + k * week_span(),
        chunk.end == u || chunk.end == chunk.start + week_span(),
        chunk.end <= chunk.start + week_span(),
        forall|t: int| chunk.start <= t < chunk.end ==> (#[trigger] covers_at(ws, t) <==> p(t)),
        0 < consumed <= ws[j].end - ws[j].start,
        consumed == remaining || consumed == ws[j].end - ws[j].start,
    ensures
        step_cut(
            Window { start: ws[j].start, end: (ws[j].start + consumed) as i64 },
            start,
            if consumed < remaining { u } else { ws[j].start + consumed },
            p,
        ),
{
    let w = ws[j];
    let s = Window { start: w.start, end: (w.start + consumed) as i64 };
    {
        if w.start == chunk.start {
            lemma_chunk_of(start, k, chunk.start as int);
        } else {
            assert(!covers_at(ws, w.start - 1)) by {
                if covers_at(ws, w.start - 1) {
                    let m = choose|m: int| 0 <= m < ws.len() && (#[trigger] ws[m]).has(w.start - 1);
                    if m < j {
                        assert(ws[m].end < ws[j].start);
                    } else if m > j {
                        assert(ws[j].end < ws[m].start);
                    }
                }
            }
        }
        if consumed == remaining {
        } else if w.end < chunk.end {
            assert(!covers_at(ws, w.end as int)) by {
                if covers_at(ws, w.end as int) {
                    let m = choose|m: int| 0 <= m < ws.len() && (#[trigger] ws[m]).has(w.end as int);
                    if m < j {
                        assert(ws[m].end < ws[j].start);
                    } else if m > j {
                        assert(ws[j].end < ws[m].start);
                    }
                }
            }
        } else if chunk.end != u {
            assert(start + (k + 1) * week_span() == chunk.start + week_span()) by (nonlinear_arith)
                requires chunk.start == start + k * week_span();
            lemma_chunk_of(start, k + 1, chunk.end as int);
        }
        assert forall|t: int| s.start < t < s.end implies #[trigger] chunk_of(start, t) != t by {
            lemma_chunk_of(start, k, t);
        }
    }
}

/// The open windows of a chunk of a search for working time hold exactly the
/// instants of the search's working predicate.
proof fn lemma_chunk_windows(c: Calendar, start: int, i: int, chunk: Window, ws: Seq<Window>)
    requires
        i >= 0,
        chunk.start == start + i * week_span(),
        chunk.end <= chunk.start + week_span(),
        forall|t: int| chunk.start <= t < chunk.end ==> (#[trigger] covers_at(ws, t) <==> query_value(c, chunk.start as int, t) >= 1),
    ensures
        forall|t: int| chunk.start <= t < chunk.end ==> (#[trigger] covers_at(ws, t) <==> chunk_pred(c, start)(t)),
{
    assert forall|t: int| chunk.start <= t < chunk.end implies (#[trigger] covers_at(ws, t) <==> chunk_pred(c, start)(t)) by {
        lemma_chunk_of(start, i, t);
    }
}

/// Wherever the working predicate is computed exactly, a forward search sees it.
pub proof fn lemma_chunk_pred_exact(c: Calendar, a: int, b: int, t: int)
    requires
        wf(c),
        exact_range(c, a, b),
        a <= t < b,
    ensures
        chunk_pred(c, a)(t) == work_pred(c, a, b)(t),
{
    let x = chunk_of(a, t);
    let i = (t - a) / week_span();
    vstd::arithmetic::div_mod::lemma_fundamental_div_mod(t - a, week_span());
    assert(i >= 0);
    assert(a <= x <= t);
    if core_range(a, b) {
        assert(core_range(x, t + 1));
        crate::around::lemma_query_value_core(c, x, t);
    } else {
        assert(!composite(c));
        assert(query_value(c, x, t) == win_capacity(c, t));
    }
}

/// Wherever the working predicate is computed exactly, one query over `[a, b)` sees it.
pub proof fn lemma_query_pred_exact(c: Calendar, a: int, b: int, t: int)
    requires
        wf(c),
        exact_range(c, a, b),
        a <= t < b,
    ensures
        (query_value(c, a, t) >= 1) == work_pred(c, a, b)(t),
{
    if core_range(a, b) {
        assert(core_range(a, t + 1));
        crate::around::lemma_query_value_core(c, a, t);
    } else {
        assert(query_value(c, a, t) == win_capacity(c, t));
    }
}

/// A window of working time consumed while adding a duration.
#[derive(Clone, Copy, Debug, PartialEq, Eq, Structural)]
pub struct WorkingTimeTraceStep {
    pub window: Window,
    pub duration: i128,
}

/// The result of adding working time, with the windows consumed.
#[derive(Debug)]
pub struct WorkingTimeTrace {
    pub start: i64,
    pub requested_duration: i128,
    pub result: i64,
    pub steps: Vec<WorkingTimeTraceStep>,
}

/// The trace's steps are well formed and lie between its start and its result.
pub open spec fn trace_wf(tr: WorkingTimeTrace) -> bool {
    &&& valid_instant(tr.start as int)
    &&& valid_instant(tr.result as int)
    &&& tr.start <= tr.result
    &&& steps_well_formed(tr.steps@)
    &&& forall|i: int| 0 <= i < tr.steps@.len() ==> tr.start <= (#[trigger] tr.steps@[i]).window.start
        && tr.steps@[i].window.end <= tr.result
}

/// The total duration of the steps.
pub open spec fn steps_total(steps: Seq<WorkingTimeTraceStep>) -> int
    decreases steps.len(),
{
    if steps.len() == 0 {
        0
    } else {
        steps_total(steps.drop_last()) + steps.last().duration
    }
}

/// Each step is a non-empty window whose duration is its length, in increasing order.
pub open spec fn steps_well_formed(steps: Seq<WorkingTimeTraceStep>) -> bool {
    &&& forall|i: int| 0 <= i < steps.len() ==> (#[trigger] steps[i]).duration == steps[i].window.span()
        && steps[i].window.start < steps[i].window.end
    &&& forall|i: int, j: int| 0 <= i < j < steps.len() ==> (#[trigger] steps[i]).window.end <= (#[trigger] steps[j]).window.start
}

/// Some step holds the instant `t`.
pub open spec fn steps_have(steps: Seq<WorkingTimeTraceStep>, t: int) -> bool {
    exists|i: int| 0 <= i < steps.len() && (#[trigger] steps[i]).window.has(t)
}

/// The steps hold exactly the working instants of `[start, x)`.
pub open spec fn steps_cover(steps: Seq<WorkingTimeTraceStep>, start: int, x: int, p: spec_fn(int) -> bool) -> bool {
    forall|t: int| #![trigger steps_have(steps, t)] #![trigger p(t)] steps_have(steps, t) <==> (start <= t < x && p(t))
}

proof fn lemma_steps_extend(
    old_steps: Seq<WorkingTimeTraceStep>,
    steps: Seq<WorkingTimeTraceStep>,
    start: int,
    x: int,
    w: Window,
    consumed: int,
    p: spec_fn(int) -> bool,
)
    requires
        steps_well_formed(old_steps),
        old_steps.len() > 0 ==> old_steps.last().window.end <= x,
        x <= w.start < w.end,
        0 < consumed <= w.end - w.start,
        steps == old_steps.push(WorkingTimeTraceStep { window: Window { start: w.start, end: (w.start + consumed) as i64 }, duration: consumed as i128 }),
        steps_cover(old_steps, start, x, p),
        forall|t: int| x <= t < w.start ==> !#[trigger] p(t),
        forall|t: int| w.start <= t < w.end ==> #[trigger] p(t),
        start <= x,
    ensures
        steps_well_formed(steps),
        steps.last().window.end == w.start + consumed,
        steps_cover(steps, start, w.start + consumed, p),
{
    let n = old_steps.len();
    assert forall|i: int| 0 <= i < steps.len() implies (#[trigger] steps[i]).duration == steps[i].window.span()
        && steps[i].window.start < steps[i].window.end by {
        if i < n {
            assert(steps[i] == old_steps[i]);
        }
    }
    assert forall|i: int, j: int| 0 <= i < j < steps.len() implies (#[trigger] steps[i]).window.end <= (#[trigger] steps[j]).window.start by {
        if j < n {
            assert(steps[i] == old_steps[i] && steps[j] == old_steps[j]);
        } else {
            assert(steps[i] == old_steps[i]);
            if i < n - 1 {
                assert(old_steps[i].window.end <= old_steps[n - 1].window.start);
            }
        }
    }
    assert forall|t: int| #[trigger] steps_have(steps, t) <==> (start <= t < w.start + consumed && p(t)) by {
        if steps_have(steps, t) {
            let i = choose|i: int| 0 <= i < steps.len() && (#[trigger] steps[i]).window.has(t);
            if i < n {
                assert(steps[i] == old_steps[i]);
                assert(steps_have(old_steps, t));
            }
        }
        if start <= t < w.start + consumed && p(t) {
            if t < x {
                assert(steps_have(old_steps, t));
                let i = choose|i: int| 0 <= i < old_steps.len() && (#[trigger] old_steps[i]).window.has(t);
                assert(steps[i] == old_steps[i]);
            } else {
                assert(steps[n as int].window.has(t));
            }
            assert(steps_have(steps, t));
        }
    }
}

proof fn lemma_steps_gap(steps: Seq<WorkingTimeTraceStep>, start: int, x: int, y: int, p: spec_fn(int) -> bool)
    requires
        steps_cover(steps, start, x, p),
        start <= x <= y,
        forall|t: int| x <= t < y ==> !#[trigger] p(t),
    ensures
        steps_cover(steps, start, y, p),
{
    assert forall|t: int| #[trigger] steps_have(steps, t) <==> (start <= t < y && p(t)) by {
        if x <= t < y {
            assert(!p(t));
        }
    }
}

/// The steps' total duration is at most the length of the range holding them.
pub proof fn lemma_steps_total_bound(steps: Seq<WorkingTimeTraceStep>, lo: int, hi: int)
    requires
        steps_well_formed(steps),
        lo <= hi,
        forall|i: int| 0 <= i < steps.len() ==> lo <= (#[trigger] steps[i]).window.start && steps[i].window.end <= hi,
    ensures
        0 <= steps_total(steps) <= hi - lo,
    decreases steps.len(),
{
    if steps.len() > 0 {
        let n = steps.len() - 1;
        let p = steps.drop_last();
        assert(steps.last() == steps[n]);
        assert forall|i: int| 0 <= i < p.len() implies (#[trigger] p[i]).duration == p[i].window.span() && p[i].window.start
            < p[i].window.end by {
            assert(p[i] == steps[i]);
        }
        assert forall|i: int, j: int| 0 <= i < j < p.len() implies (#[trigger] p[i]).window.end <= (#[trigger] p[j]).window.start by {
            assert(p[i] == steps[i] && p[j] == steps[j]);
        }
        assert forall|i: int| 0 <= i < p.len() implies lo <= (#[trigger] p[i]).window.start && p[i].window.end <= steps[n].window.start by {
            assert(p[i] == steps[i]);
        }
        lemma_steps_total_bound(p, lo, steps[n].window.start as int);
    }
}

/// The steps' total duration is the number of instants they cover.
pub proof fn lemma_steps_total_count(steps: Seq<WorkingTimeTraceStep>, start: int, x: int, p: spec_fn(int) -> bool)
    requires
        steps_well_formed(steps),
        steps_cover(steps, start, x, p),
        start <= x,
    ensures
        steps_total(steps) == count_where(start, x, p),
    decreases steps.len(),
{
    if steps.len() == 0 {
        assert forall|t: int| start <= t < x implies !#[trigger] p(t) by {
            assert(!steps_have(steps, t));
        }
        lemma_count_none(start, x, p);
    } else {
        let n = steps.len() - 1;
        let last = steps[n];
        let ls = last.window.start as int;
        let le = last.window.end as int;
        assert(steps.last() == last);
        assert(last.window.has(ls));
        assert(steps_have(steps, ls));
        assert(start <= ls && le <= x) by {
            assert(steps_have(steps, le - 1)) by {
                assert(last.window.has(le - 1));
            }
        }
        let q = steps.drop_last();
        assert forall|i: int| 0 <= i < q.len() implies (#[trigger] q[i]).duration == q[i].window.span() && q[i].window.start
            < q[i].window.end by {
            assert(q[i] == steps[i]);
        }
        assert forall|i: int, j: int| 0 <= i < j < q.len() implies (#[trigger] q[i]).window.end <= (#[trigger] q[j]).window.start by {
            assert(q[i] == steps[i] && q[j] == steps[j]);
        }
        assert forall|t: int| #[trigger] steps_have(q, t) <==> (start <= t < ls && p(t)) by {
            if steps_have(q, t) {
                let i = choose|i: int| 0 <= i < q.len() && (#[trigger] q[i]).window.has(t);
                assert(q[i] == steps[i]);
                assert(steps_have(steps, t));
                assert(steps[i].window.end <= last.window.start);
            }
            if start <= t < ls && p(t) {
                assert(steps_have(steps, t));
                let i = choose|i: int| 0 <= i < steps.len() && (#[trigger] steps[i]).window.has(t);
                assert(i != n);
                assert(q[i] == steps[i]);
            }
        }
        lemma_steps_total_count(q, start, ls, p);
        assert forall|t: int| ls <= t < le implies #[trigger] p(t) by {
            assert(last.window.has(t));
            assert(steps_have(steps, t));
        }
        lemma_count_all(ls, le, p);
        assert forall|t: int| le <= t < x implies !#[trigger] p(t) by {
            if p(t) {
                assert(steps_have(steps, t));
                let i = choose|i: int| 0 <= i < steps.len() && (#[trigger] steps[i]).window.has(t);
                if i < n {
                    assert(steps[i].window.end <= last.window.start);
                }
            }
        }
        lemma_count_none(le, x, p);
        lemma_count_split(start, ls, le, p);
        lemma_count_split(start, le, x, p);
    }
}

/// The instant at which `duration` of working time has elapsed since `start`:
/// the first `x` with `duration` working instants in `[start, x)`.
pub open spec fn reaches(start: int, x: int, duration: int, p: spec_fn(int) -> bool) -> bool {
    &&& start <= x
    &&& count_where(start, x, p) == duration
    &&& forall|y: int| start <= y < x ==> #[trigger] count_where(start, y, p) < duration
}

/// The instants of `[a, b)` with capacity at least `m`: by `capacity_at` away
/// from the edges of time, by the expanded windows otherwise.
pub open spec fn level_pred(c: Calendar, a: int, b: int, m: int) -> spec_fn(int) -> bool {
    if core_range(a, b) {
        |t: int| capacity_at(c, t) >= m
    } else {
        |t: int| win_capacity(c, t) >= m
    }
}

/// Windows of a sub-range computed at level `m` hold exactly the instants of `level_pred`.
proof fn lemma_level_windows_exact(c: Calendar, a: int, b: int, m: int, x: int, y: int, ws: Seq<Window>)
    requires
        exact_range(c, a, b),
        a <= x <= y <= b,
        core_range(x, y) ==> forall|t: int| x <= t < y ==> (#[trigger] covers_at(ws, t) <==> capacity_at(c, t) >= m),
        !composite(c) ==> forall|t: int| x <= t < y ==> (#[trigger] covers_at(ws, t) <==> win_capacity(c, t) >= m),
    ensures
        forall|t: int| x <= t < y ==> (#[trigger] covers_at(ws, t) <==> level_pred(c, a, b, m)(t)),
{
    if core_range(a, b) {
        assert(core_range(x, y));
    }
}

/// `q` holds at every instant of `[s, s + d)`.
pub open spec fn slot_at(s: int, d: int, q: spec_fn(int) -> bool) -> bool {
    forall|t: int| s <= t < s + d ==> #[trigger] q(t)
}

/// In canonical windows that hold exactly the instants of `q` inside `chunk`, the
/// window holding `s` reaches every instant up to which `q` holds without a gap.
pub proof fn lemma_run_extends(ws: Seq<Window>, chunk: Window, q: spec_fn(int) -> bool, m: int, s: int, e: int)
    requires
        canonical(ws),
        within(ws, chunk),
        forall|t: int| chunk.start <= t < chunk.end ==> (#[trigger] covers_at(ws, t) <==> q(t)),
        0 <= m < ws.len(),
        ws[m].has(s),
        s <= e <= chunk.end,
        forall|t: int| s <= t < e ==> #[trigger] q(t),
    ensures
        ws[m].end >= e,
{
    if ws[m].end < e {
        let x = ws[m].end as int;
        assert(q(x));
        assert(chunk.start <= x);
        assert(covers_at(ws, x));
        let n = choose|n: int| 0 <= n < ws.len() && (#[trigger] ws[n]).has(x);
        if n < m {
            assert(ws[n].end < ws[m].start);
        } else if n > m {
            assert(ws[m].end < ws[n].start);
        }
    }
}

/// `x` is the first instant at or after `start` where `p` holds.
pub open spec fn first_from(start: int, x: int, p: spec_fn(int) -> bool) -> bool {
    &&& start <= x
    &&& p(x)
    &&& forall|t: int| start <= t < x ==> !#[trigger] p(t)
}

/// A search for `duration` of working time from `start` stays among the
/// representable instants, chunk by chunk.
pub open spec fn work_search_fits(start: int, duration: int, search_until: Option<i64>) -> bool {
    duration > 0 ==> valid_instant(search_end(start, search_until)) && chunks_fit(start, search_end(start, search_until), 0)
}

/// A search for a slot of `duration` from `start` stays among the
/// representable instants, chunk by chunk.
pub open spec fn slot_search_fits(start: int, duration: int, minimum_capacity: int, search_until: Option<i64>) -> bool {
    duration >= 0 && minimum_capacity > 0 ==> valid_instant(search_end(start, search_until)) && chunks_fit(
        start,
        search_end(start, search_until),
        duration,
    )
}

/// What adding `duration` of working time from `start` gives: the first
/// instant at which that much working time has elapsed, within the search range.
pub open spec fn work_added(c: Calendar, start: i64, duration: i128, search_until: Option<i64>, r: Result<i64, TimeGridError>) -> bool {
    &&& duration < 0 ==> r == Err::<i64, TimeGridError>(TimeGridError::NegativeDuration)
    &&& duration == 0 ==> r == Ok::<i64, TimeGridError>(start)
    &&& duration > 0 ==> (r is Err ==> r == Err::<i64, TimeGridError>(TimeGridError::DurationNotFound))
    &&& duration > 0 ==> ({
        let u = search_end(start as int, search_until);
        let p = chunk_pred(c, start as int);
        &&& r is Ok <==> count_where(start as int, u, p) >= duration
        &&& r matches Ok(x) ==> x <= u && reaches(start as int, x as int, duration as int, p)
    })
}

/// A step cut only where it must be: it starts where working time begins or at
/// the start of a chunk of the search from `start`, ends at `last`, where
/// working time stops or at the start of a chunk, and runs across no chunk start.
pub open spec fn step_cut(w: Window, start: int, last: int, p: spec_fn(int) -> bool) -> bool {
    &&& (!p(w.start - 1) || chunk_of(start, w.start as int) == w.start)
    &&& (w.end == last || !p(w.end as int) || chunk_of(start, w.end as int) == w.end)
    &&& forall|t: int| w.start < t < w.end ==> #[trigger] chunk_of(start, t) != t
}

/// Every step is cut only where it must be: the steps are the open windows of
/// each chunk of the search, the last one cut at `last`.
pub open spec fn steps_cut(steps: Seq<WorkingTimeTraceStep>, start: int, last: int, p: spec_fn(int) -> bool) -> bool {
    forall|i: int| 0 <= i < steps.len() ==> step_cut((#[trigger] steps[i]).window, start, last, p)
}

/// What tracing `duration` of working time from `start` gives: the instant
/// reached, and the working windows consumed on the way.
pub open spec fn work_traced(
    c: Calendar,
    start: i64,
    duration: i128,
    search_until: Option<i64>,
    r: Result<WorkingTimeTrace, TimeGridError>,
) -> bool {
    &&& duration < 0 ==> r == Err::<WorkingTimeTrace, TimeGridError>(TimeGridError::NegativeDuration)
    &&& duration == 0 ==> r is Ok
    &&& r matches Ok(tr) ==> tr.start == start && tr.requested_duration == duration
    &&& duration == 0 ==> (r matches Ok(tr) && tr.result == start && tr.steps@.len() == 0)
    &&& duration > 0 ==> (r is Err ==> r == Err::<WorkingTimeTrace, TimeGridError>(TimeGridError::DurationNotFound))
    &&& r matches Ok(tr) ==> trace_wf(tr)
    &&& duration > 0 ==> ({
        let u = search_end(start as int, search_until);
        let p = chunk_pred(c, start as int);
        &&& r is Ok <==> count_where(start as int, u, p) >= duration
        &&& r matches Ok(tr) ==> tr.result <= u && reaches(start as int, tr.result as int, duration as int, p)
        &&& r matches Ok(tr) ==> steps_cover(tr.steps@, start as int, tr.result as int, p)
        &&& r matches Ok(tr) ==> steps_cut(tr.steps@, start as int, tr.result as int, p)
    })
}

/// What searching for the next open instant from `start` gives.
pub open spec fn next_open_found(c: Calendar, start: i64, search_until: Option<i64>, r: Result<Option<i64>, TimeGridError>) -> bool {
    &&& r is Ok
    &&& r matches Ok(Some(x)) ==> start <= x < search_end(start as int, search_until)
    &&& ({
        let u = search_end(start as int, search_until);
        let p = chunk_pred(c, start as int);
        &&& r matches Ok(Some(x)) ==> first_from(start as int, x as int, p)
        &&& r matches Ok(None) ==> forall|t: int| start <= t < u ==> !#[trigger] p(t)
    })
}

/// Where the `k`-th chunk of a search from `start` up to `until` for slots of
/// `span` starts.
pub open spec fn cursor_at(start: int, until: int, span: int, k: nat) -> int
    decreases k,
{
    if k == 0 {
        start
    } else {
        next_cursor(cursor_at(start, until, span, (k - 1) as nat), until, span)
    }
}

/// The instants of the `k`-th chunk that its capacity windows give capacity at least `m`.
pub open spec fn chunk_level(c: Calendar, start: int, until: int, span: int, m: int, k: nat) -> spec_fn(int) -> bool {
    |t: int| query_value(c, cursor_at(start, until, span, k), t) >= m
}

/// Inside `[lo, hi)`, a run of `q` starts at `s` and holds a slot of `d` from it.
pub open spec fn run_slot(lo: int, hi: int, q: spec_fn(int) -> bool, d: int, s: int) -> bool {
    &&& lo <= s
    &&& s + d <= hi
    &&& (s == lo || !q(s - 1))
    &&& slot_at(s, d, q)
}

/// A capacity window of the `k`-th chunk starts at `s` and holds a slot of `span` from it.
pub open spec fn chunk_slot(c: Calendar, start: int, until: int, span: int, m: int, k: nat, s: int) -> bool {
    let a = cursor_at(start, until, span, k);
    a < until && run_slot(a, chunk_end(a, until, span), chunk_level(c, start, until, span, m, k), span, s)
}

/// A run that holds a slot is the start of one of the canonical windows of its
/// predicate, and that window holds the slot.
proof fn lemma_run_window(ws: Seq<Window>, lo: int, hi: int, q: spec_fn(int) -> bool, d: int, s: int) -> (n: int)
    requires
        canonical(ws),
        forall|i: int| 0 <= i < ws.len() ==> lo <= (#[trigger] ws[i]).start && ws[i].end <= hi,
        forall|t: int| lo <= t < hi ==> (#[trigger] covers_at(ws, t) <==> q(t)),
        d > 0,
        run_slot(lo, hi, q, d, s),
    ensures
        0 <= n < ws.len(),
        ws[n].start == s,
        ws[n].end >= s + d,
{
    assert(q(s));
    assert(covers_at(ws, s));
    let n = choose|n: int| 0 <= n < ws.len() && (#[trigger] ws[n]).has(s);
    if ws[n].start < s {
        assert(ws[n].has(s - 1));
        assert(covers_at(ws, s - 1));
    }
    if ws[n].end < s + d {
        let x = ws[n].end as int;
        assert(q(x));
        assert(covers_at(ws, x));
        let n2 = choose|n2: int| 0 <= n2 < ws.len() && (#[trigger] ws[n2]).has(x);
        if n2 < n {
            assert(ws[n2].end < ws[n].start);
        } else if n2 > n {
            assert(ws[n].end < ws[n2].start);
        }
    }
    n
}

/// The first canonical window long enough for a slot of `d` starts the first
/// run that holds one.
proof fn lemma_found_run(ws: Seq<Window>, lo: int, hi: int, q: spec_fn(int) -> bool, d: int, j: int)
    requires
        canonical(ws),
        forall|i: int| 0 <= i < ws.len() ==> lo <= (#[trigger] ws[i]).start && ws[i].end <= hi,
        forall|t: int| lo <= t < hi ==> (#[trigger] covers_at(ws, t) <==> q(t)),
        d > 0,
        0 <= j < ws.len(),
        ws[j].end - ws[j].start >= d,
        forall|n: int| 0 <= n < j ==> (#[trigger] ws[n]).end - ws[n].start < d,
    ensures
        run_slot(lo, hi, q, d, ws[j].start as int),
        forall|s: int| s < ws[j].start ==> !#[trigger] run_slot(lo, hi, q, d, s),
{
    let w = ws[j];
    if w.start > lo {
        if q(w.start - 1) {
            assert(covers_at(ws, w.start - 1));
            let n = choose|n: int| 0 <= n < ws.len() && (#[trigger] ws[n]).has(w.start - 1);
            if n < j {
                assert(ws[n].end < w.start);
            } else if n > j {
                assert(w.end < ws[n].start);
            }
        }
    }
    assert forall|t: int| w.start <= t < w.start + d implies #[trigger] q(t) by {
        assert(w.has(t));
        assert(covers_at(ws, t));
    }
    assert forall|s: int| s < ws[j].start implies !#[trigger] run_slot(lo, hi, q, d, s) by {
        if run_slot(lo, hi, q, d, s) {
            let n = lemma_run_window(ws, lo, hi, q, d, s);
            if n > j {
                assert(w.end < ws[n].start);
            }
            assert(ws[n].end - ws[n].start >= d);
        }
    }
}

/// Without a canonical window long enough for a slot of `d`, no run holds one.
proof fn lemma_no_run(ws: Seq<Window>, lo: int, hi: int, q: spec_fn(int) -> bool, d: int)
    requires
        canonical(ws),
        forall|i: int| 0 <= i < ws.len() ==> lo <= (#[trigger] ws[i]).start && ws[i].end <= hi,
        forall|t: int| lo <= t < hi ==> (#[trigger] covers_at(ws, t) <==> q(t)),
        d > 0,
        forall|n: int| 0 <= n < ws.len() ==> (#[trigger] ws[n]).end - ws[n].start < d,
    ensures
        forall|s: int| !#[trigger] run_slot(lo, hi, q, d, s),
{
    assert forall|s: int| !#[trigger] run_slot(lo, hi, q, d, s) by {
        if run_slot(lo, hi, q, d, s) {
            let n = lemma_run_window(ws, lo, hi, q, d, s);
            assert(ws[n].end - ws[n].start >= d);
        }
    }
}

/// The instants that the capacity windows of a search for empty slots from
/// `start` give capacity at least `m`: week chunks, back to back.
pub open spec fn level_chunk_pred(c: Calendar, start: int, m: int) -> spec_fn(int) -> bool {
    |t: int| query_value(c, chunk_of(start, t), t) >= m
}

/// The chunks of a search start where `cursor_at` says.
proof fn lemma_chunk_cursors(chunks: Seq<Window>, start: int, until: int, span: int)
    requires
        chunk_chain(chunks, start, until, span),
    ensures
        forall|k: int| 0 <= k < chunks.len() ==> (#[trigger] chunks[k]).start == cursor_at(start, until, span, k as nat),
{
    assert forall|k: int| 0 <= k < chunks.len() implies (#[trigger] chunks[k]).start == cursor_at(start, until, span, k as nat) by {
        lemma_chunk_cursor(chunks, start, until, span, k);
    }
}

proof fn lemma_chunk_cursor(chunks: Seq<Window>, start: int, until: int, span: int, k: int)
    requires
        chunk_chain(chunks, start, until, span),
        0 <= k < chunks.len(),
    ensures
        chunks[k].start == cursor_at(start, until, span, k as nat),
    decreases k,
{
    if k > 0 {
        lemma_chunk_cursor(chunks, start, until, span, k - 1);
        let j = k - 1;
        assert(chunks[j + 1].start == next_cursor(chunks[j].start as int, until, span));
    }
}

/// Past the last chunk, the cursor has reached `until`.
proof fn lemma_cursor_past(chunks: Seq<Window>, start: int, until: int, span: int, k: nat)
    requires
        chunk_chain(chunks, start, until, span),
        span >= 0,
        k >= chunks.len(),
    ensures
        cursor_at(start, until, span, k) >= until,
    decreases k,
{
    if k == 0 {
    } else if k == chunks.len() {
        lemma_chunk_cursor(chunks, start, until, span, k - 1);
        let last = chunks[k - 1];
        assert(last.end == chunk_end(last.start as int, until, span));
        assert(last == chunks.last());
    } else {
        lemma_cursor_past(chunks, start, until, span, (k - 1) as nat);
    }
}

/// What searching for the first slot of `duration` with capacity at least
/// `minimum_capacity` from `start` gives. The search goes chunk by chunk, the
/// chunks overlapping by `duration`, and takes the first capacity window of a
/// chunk long enough for the slot; an empty slot is the first instant with
/// capacity. Wherever capacity is computed exactly, that is the first slot
/// with capacity throughout.
pub open spec fn slot_found(
    c: Calendar,
    start: i64,
    duration: i128,
    minimum_capacity: i32,
    search_until: Option<i64>,
    r: Result<Option<Window>, TimeGridError>,
) -> bool {
    &&& duration < 0 ==> r == Err::<Option<Window>, TimeGridError>(TimeGridError::NegativeDuration)
    &&& duration >= 0 && minimum_capacity <= 0 ==> r == Err::<Option<Window>, TimeGridError>(
        TimeGridError::RequiredCapacityNotPositive,
    )
    &&& duration >= 0 && minimum_capacity > 0 ==> r is Ok
    &&& r matches Ok(Some(w)) ==> start <= w.start && w.end == w.start + duration && w.start < search_end(
        start as int,
        search_until,
    ) && w.end <= search_end(start as int, search_until)
    &&& duration == 0 && minimum_capacity > 0 ==> ({
        let u = search_end(start as int, search_until);
        let q = level_chunk_pred(c, start as int, minimum_capacity as int);
        &&& r matches Ok(Some(w)) ==> first_from(start as int, w.start as int, q)
        &&& r matches Ok(None) ==> forall|t: int| start <= t < u ==> !#[trigger] q(t)
    })
    &&& duration > 0 && minimum_capacity > 0 ==> ({
        let u = search_end(start as int, search_until);
        let d = duration as int;
        let m = minimum_capacity as int;
        &&& r matches Ok(Some(w)) ==> exists|k: nat| #[trigger] chunk_slot(c, start as int, u, d, m, k, w.start as int)
            && (forall|s: int| s < w.start ==> !#[trigger] chunk_slot(c, start as int, u, d, m, k, s))
            && (forall|j: nat, s: int| j < k ==> !#[trigger] chunk_slot(c, start as int, u, d, m, j, s))
        &&& r matches Ok(None) ==> forall|k: nat, s: int| !#[trigger] chunk_slot(c, start as int, u, d, m, k, s)
    })
    &&& exact_range(c, start as int, search_end(start as int, search_until)) ==> ({
        let u = search_end(start as int, search_until);
        let q = level_pred(c, start as int, u, minimum_capacity as int);
        &&& r matches Ok(Some(w)) ==> slot_at(w.start as int, duration as int, q)
        &&& duration == 0 ==> (r matches Ok(Some(w)) ==> first_from(start as int, w.start as int, q))
        &&& duration == 0 ==> (r matches Ok(None) ==> forall|t: int| start <= t < u ==> !#[trigger] q(t))
        &&& duration > 0 ==> (r matches Ok(Some(w)) ==> forall|s: int|
            start <= s < w.start ==> !#[trigger] slot_at(s, duration as int, q))
        &&& duration > 0 ==> (r matches Ok(None) ==> forall|s: int|
            start <= s && s + duration <= u ==> !#[trigger] slot_at(s, duration as int, q))
    })
}

/// What measuring the working time of `[start, end)` gives: the number of its
/// working instants as its open windows report them, which is the number of
/// instants with capacity wherever that is computed exactly.
pub open spec fn working_measured(c: Calendar, start: i64, end: i64, r: Result<i128, TimeGridError>) -> bool {
    &&& end < start ==> r == Err::<i128, TimeGridError>(TimeGridError::EndBeforeStart)
    &&& start <= end ==> r is Ok
    &&& r matches Ok(d) ==> forall|p: spec_fn(int) -> bool| exact_open(c, start as int, end as int, p) ==> d
        == count_where(start as int, end as int, p)
    &&& r matches Ok(d) ==> d == count_where(start as int, end as int, |t: int| query_value(c, start as int, t) >= 1)
}

impl WorkingTimeTrace {
    /// The instant the working time was added from.
    pub fn Start(&self) -> (r: i64)
        ensures
            r == self.start,
    {
        self.start
    }

    /// The working time requested, in microseconds.
    pub fn RequestedDuration(&self) -> (r: i128)
        ensures
            r == self.requested_duration,
    {
        self.requested_duration
    }

    /// The instant at which the requested working time has elapsed.
    pub fn Result(&self) -> (r: i64)
        ensures
            r == self.result,
    {
        self.result
    }

    /// The working windows consumed, in order.
    pub fn Steps(&self) -> (r: Vec<WorkingTimeTraceStep>)
        ensures
            r@ == self.steps@,
    {
        crate::calendar::copy_vec(&self.steps)
    }

    /// The working time requested, in ticks of a tenth of a microsecond.
    pub fn RequestedTicks(&self) -> (r: Result<i64, TimeGridError>)
        ensures
            r is Ok <==> (i64::MIN <= self.requested_duration <= i64::MAX && i64::MIN <= self.requested_duration * 10
                <= i64::MAX),
            r matches Ok(v) ==> v == self.requested_duration * 10,
            r is Err ==> r == Err::<i64, TimeGridError>(TimeGridError::TickOverflow),
    {
        crate::time::duration_to_ticks(self.requested_duration)
    }

    /// The working time consumed by the steps, in ticks of a tenth of a microsecond.
    pub fn ConsumedTicks(&self) -> (r: Result<i64, TimeGridError>)
        requires
            trace_wf(*self),
        ensures
            r is Ok <==> steps_total(self.steps@) * 10 <= i64::MAX,
            r matches Ok(v) ==> v == steps_total(self.steps@) * 10,
            r is Err ==> r == Err::<i64, TimeGridError>(TimeGridError::TickOverflow),
    {
        let mut total: i128 = 0;
        let mut i: usize = 0;
        proof {
            assert(self.steps@.take(0) =~= Seq::<WorkingTimeTraceStep>::empty());
        }
        while i < self.steps.len()
            invariant
                trace_wf(*self),
                i <= self.steps@.len(),
                total == steps_total(self.steps@.take(i as int)),
            decreases self.steps@.len() - i,
        {
            proof {
                let pre = self.steps@.take(i + 1);
                assert(pre.drop_last() =~= self.steps@.take(i as int));
                assert forall|k: int| 0 <= k < pre.len() implies (#[trigger] pre[k]).duration == pre[k].window.span()
                    && pre[k].window.start < pre[k].window.end by {
                    assert(pre[k] == self.steps@[k]);
                }
                assert forall|k: int, j: int| 0 <= k < j < pre.len() implies (#[trigger] pre[k]).window.end <= (#[trigger] pre[j]).window.start by {
                    assert(pre[k] == self.steps@[k] && pre[j] == self.steps@[j]);
                }
                assert forall|k: int| 0 <= k < pre.len() implies self.start <= (#[trigger] pre[k]).window.start
                    && pre[k].window.end <= self.result by {
                    assert(pre[k] == self.steps@[k]);
                }
                lemma_steps_total_bound(pre, self.start as int, self.result as int);
            }
            total = total + self.steps[i].duration;
            i = i + 1;
        }
        proof {
            assert(self.steps@.take(self.steps@.len() as int) =~= self.steps@);
            lemma_steps_total_bound(self.steps@, self.start as int, self.result as int);
        }
        crate::time::duration_to_ticks(total)
    }
}

impl Calendar {
    /// The instant at which `duration` of working time has been spent from `start`,
    /// searching up to `search_until` (five years by default).
    pub fn add_work_duration(&self, start: i64, duration: i128, search_until: Option<i64>) -> (r: Result<i64, TimeGridError>)
        requires
            wf(*self),
            valid_instant(start as int),
            valid_span(duration as int),
            work_search_fits(start as int, duration as int, search_until),
        ensures
            work_added(*self, start, duration, search_until, r),

    {
        if duration < 0 {
            return Err(TimeGridError::NegativeDuration);
        }
        if duration == 0 {
            return Ok(start);
        }
        let until: i64 = match search_until {
            Some(u) => u,
            None => start + DEFAULT_SEARCH_YEARS_DAYS * MICROS_PER_DAY,
        };
        let ghost u = until as int;
        let ghost p = chunk_pred(*self, start as int);
        let chunks = search_chunks(start, until, 0);
        let mut remaining: i128 = duration;
        let mut k: usize = 0;
        while k < chunks.len()
            invariant
                wf(*self),
                valid_instant(start as int),
                valid_instant(until as int),
                u == until,
                u == search_end(start as int, search_until),
                p == chunk_pred(*self, start as int),
                chunk_chain(chunks@, start as int, u, 0),
                forall|i: int| 0 <= i < chunks.len() ==> start <= (#[trigger] chunks@[i]).start && chunks@[i].end <= until,
                k <= chunks.len(),
                0 < remaining <= duration,
                remaining == duration - count_where(
                    start as int,
                    if k < chunks.len() { chunks@[k as int].start as int } else { u },
                    p,
                ),
            decreases chunks.len() - k,
        {
            let chunk = chunks[k];
            proof {
                if k + 1 < chunks.len() {
                    assert(chunks@[k + 1].start == next_cursor(chunk.start as int, u, 0));
                }
                assert(valid_instant(chunk.start as int) && valid_instant(chunk.end as int));
            }
            let windows = match self.get_open_windows(chunk.start, chunk.end) {
                Ok(ws) => ws,
                Err(e) => {
                    return Err(e);
                },
            };
            proof {
                lemma_work_chunks(chunks@, start as int, u, 0);
                lemma_chunk_windows(*self, start as int, k as int, chunk, windows@);
                assert(chunk.end == chunk_end(chunk.start as int, u, 0));
            }
            let ghost chunk_base = remaining;
            let mut j: usize = 0;
            while j < windows.len()
                invariant
                    canonical(windows@),
                    within(windows@, chunk),
                    chunk.start < chunk.end,
                    valid_instant(chunk.start as int),
                    valid_instant(chunk.end as int),
                    start <= chunk.start,
                    chunk.end <= until,
                    j <= windows.len(),
                    0 < remaining <= duration,
                    forall|t: int| chunk.start <= t < chunk.end ==> (#[trigger] covers_at(windows@, t) <==> p(t)),
                    remaining == duration - count_where(
                        start as int,
                        if j == 0 { chunk.start as int } else { windows@[j - 1].end as int },
                        p,
                    ),
                    k + 1 < chunks.len() ==> chunks@[k + 1].start == chunk.end,
                    k + 1 == chunks.len() ==> chunk.end == u,
                    k < chunks.len(),
                    chunk == chunks@[k as int],
                    u == until,
                    u == search_end(start as int, search_until),
                    p == chunk_pred(*self, start as int),
                    valid_instant(start as int),
                decreases windows.len() - j,
            {
                let w = windows[j];
                let ghost x = if j == 0 { chunk.start as int } else { windows@[j - 1].end as int };
                proof {
                    if j > 0 {
                        assert(windows@[j - 1].end < w.start);
                    }
                    assert forall|t: int| x <= t < w.start implies !#[trigger] p(t) by {
                        assert(covers_at(windows@, t) <==> p(t));
                        if covers_at(windows@, t) {
                            let m = choose|m: int| 0 <= m < windows@.len() && (#[trigger] windows@[m]).has(t);
                            if m < j {
                                if m < j - 1 {
                                    assert(windows@[m].end < windows@[j - 1].start);
                                }
                            } else if m > j {
                                assert(w.end < windows@[m].start);
                            }
                        }
                    }
                    lemma_count_none(x, w.start as int, p);
                    assert forall|t: int| w.start <= t < w.end implies #[trigger] p(t) by {
                        assert(w.has(t));
                        assert(covers_at(windows@, t));
                    }
                    lemma_count_all(w.start as int, w.end as int, p);
                    lemma_count_split(start as int, x, w.start as int, p);
                    lemma_count_split(start as int, w.start as int, w.end as int, p);
                }
                if remaining <= w.duration() {
                    let result = (w.start as i128 + remaining) as i64;
                    proof {
                        let r = result as int;
                        assert(r <= w.end);
                        assert(w.end <= chunk.end);
                        assert forall|t: int| w.start <= t < r implies #[trigger] p(t) by {
                            assert(w.has(t));
                            assert(covers_at(windows@, t));
                        }
                        lemma_count_all(w.start as int, r, p);
                        lemma_count_split(start as int, w.start as int, r, p);
                        assert(count_where(start as int, r, p) == duration);
                        assert forall|y: int| start <= y < r implies #[trigger] count_where(start as int, y, p) < duration by {
                            lemma_count_monotone(start as int, y, r - 1, p);
                            lemma_count_all(w.start as int, r - 1, p);
                            lemma_count_split(start as int, w.start as int, r - 1, p);
                        }
                        lemma_count_monotone(start as int, r, u, p);
                        assert(u == search_end(start as int, search_until));
                        assert(count_where(start as int, u, p) >= duration);
                        assert(reaches(start as int, r, duration as int, p));
                    }
                    return Ok(result);
                }
                remaining = remaining - w.duration();
                j = j + 1;
            }
            proof {
                let x = if j == 0 { chunk.start as int } else { windows@[j - 1].end as int };
                assert forall|t: int| x <= t < chunk.end implies !#[trigger] p(t) by {
                    assert(covers_at(windows@, t) <==> p(t));
                    if covers_at(windows@, t) {
                        let m = choose|m: int| 0 <= m < windows@.len() && (#[trigger] windows@[m]).has(t);
                        if m < j - 1 {
                            assert(windows@[m].end < windows@[j - 1].start);
                        }
                    }
                }
                lemma_count_none(x, chunk.end as int, p);
                lemma_count_split(start as int, x, chunk.end as int, p);
            }
            k = k + 1;
        }
        proof {
            if chunks.len() == 0 {
                lemma_count_bounds(start as int, u, p);
            }
        }
        Err(TimeGridError::DurationNotFound)
    }

    /// Like `add_work_duration`, and also the working windows consumed on the way.
    pub fn trace_work_duration(&self, start: i64, duration: i128, search_until: Option<i64>) -> (r: Result<WorkingTimeTrace, TimeGridError>)
        requires
            wf(*self),
            valid_instant(start as int),
            valid_span(duration as int),
            work_search_fits(start as int, duration as int, search_until),
        ensures
            work_traced(*self, start, duration, search_until, r),

    {
        if duration < 0 {
            return Err(TimeGridError::NegativeDuration);
        }
        if duration == 0 {
            return Ok(WorkingTimeTrace { start, requested_duration: duration, result: start, steps: Vec::new() });
        }
        let until: i64 = match search_until {
            Some(u) => u,
            None => start + DEFAULT_SEARCH_YEARS_DAYS * MICROS_PER_DAY,
        };
        let ghost u = until as int;
        let ghost p = chunk_pred(*self, start as int);
        let chunks = search_chunks(start, until, 0);
        let mut remaining: i128 = duration;
        let mut steps: Vec<WorkingTimeTraceStep> = Vec::new();
        let mut k: usize = 0;
        while k < chunks.len()
            invariant
                wf(*self),
                valid_instant(start as int),
                valid_instant(until as int),
                u == until,
                u == search_end(start as int, search_until),
                p == chunk_pred(*self, start as int),
                chunk_chain(chunks@, start as int, u, 0),
                forall|i: int| 0 <= i < chunks.len() ==> start <= (#[trigger] chunks@[i]).start && chunks@[i].end <= until,
                k <= chunks.len(),
                0 < remaining <= duration,
                remaining == duration - count_where(
                    start as int,
                    if k < chunks.len() { chunks@[k as int].start as int } else { u },
                    p,
                ),
                steps_well_formed(steps@),
                forall|i: int| 0 <= i < steps@.len() ==> start <= (#[trigger] steps@[i]).window.start,
                steps@.len() > 0 ==> steps@.last().window.end <= (if k < chunks.len() { chunks@[k as int].start as int } else { u }),
                steps_cover(steps@, start as int, if k < chunks.len() { chunks@[k as int].start as int } else { u }, p),
                steps_cut(steps@, start as int, u, p),
            decreases chunks.len() - k,
        {
            let chunk = chunks[k];
            proof {
                if k + 1 < chunks.len() {
                    assert(chunks@[k + 1].start == next_cursor(chunk.start as int, u, 0));
                }
                assert(valid_instant(chunk.start as int) && valid_instant(chunk.end as int));
            }
            let windows = match self.get_open_windows(chunk.start, chunk.end) {
                Ok(ws) => ws,
                Err(e) => {
                    return Err(e);
                },
            };
            proof {
                lemma_work_chunks(chunks@, start as int, u, 0);
                lemma_chunk_windows(*self, start as int, k as int, chunk, windows@);
            }
            let ghost chunk_base = remaining;
            let mut j: usize = 0;
            while j < windows.len()
                invariant
                    canonical(windows@),
                    within(windows@, chunk),
                    chunk.start < chunk.end,
                    valid_instant(chunk.start as int),
                    valid_instant(chunk.end as int),
                    start <= chunk.start,
                    chunk.end <= until,
                    j <= windows.len(),
                    0 < remaining <= duration,
                    forall|t: int| chunk.start <= t < chunk.end ==> (#[trigger] covers_at(windows@, t) <==> p(t)),
                    remaining == duration - count_where(
                        start as int,
                        if j == 0 { chunk.start as int } else { windows@[j - 1].end as int },
                        p,
                    ),
                    steps_well_formed(steps@),
                    forall|i: int| 0 <= i < steps@.len() ==> start <= (#[trigger] steps@[i]).window.start,
                    steps@.len() > 0 ==> steps@.last().window.end <= (if j == 0 { chunk.start as int } else { windows@[j - 1].end as int }),
                    steps_cover(steps@, start as int, if j == 0 { chunk.start as int } else { windows@[j - 1].end as int }, p),
                    steps_cut(steps@, start as int, u, p),
                    chunk.start == start + k * week_span(),
                    chunk.end == u || chunk.end == chunk.start + week_span(),
                    chunk.end <= chunk.start + week_span(),
                    k + 1 < chunks.len() ==> chunks@[k + 1].start == chunk.end,
                    k + 1 == chunks.len() ==> chunk.end == u,
                    k < chunks.len(),
                    chunk == chunks@[k as int],
                    u == until,
                    u == search_end(start as int, search_until),
                    p == chunk_pred(*self, start as int),
                    valid_instant(start as int),
                decreases windows.len() - j,
            {
                let w = windows[j];
                let ghost x = if j == 0 { chunk.start as int } else { windows@[j - 1].end as int };
                proof {
                    if j > 0 {
                        assert(windows@[j - 1].end < w.start);
                    }
                    assert forall|t: int| x <= t < w.start implies !#[trigger] p(t) by {
                        assert(covers_at(windows@, t) <==> p(t));
                        if covers_at(windows@, t) {
                            let m = choose|m: int| 0 <= m < windows@.len() && (#[trigger] windows@[m]).has(t);
                            if m < j {
                                if m < j - 1 {
                                    assert(windows@[m].end < windows@[j - 1].start);
                                }
                            } else if m > j {
                                assert(w.end < windows@[m].start);
                            }
                        }
                    }
                    lemma_count_none(x, w.start as int, p);
                    assert forall|t: int| w.start <= t < w.end implies #[trigger] p(t) by {
                        assert(w.has(t));
                        assert(covers_at(windows@, t));
                    }
                    lemma_count_all(w.start as int, w.end as int, p);
                    lemma_count_split(start as int, x, w.start as int, p);
                    lemma_count_split(start as int, w.start as int, w.end as int, p);
                }
                let ghost old_steps = steps@;
                let consumed: i128 = if remaining < w.duration() {
                    remaining
                } else {
                    w.duration()
                };
                if consumed > 0 {
                    steps.push(WorkingTimeTraceStep {
                        window: Window { start: w.start, end: (w.start as i128 + consumed) as i64 },
                        duration: consumed,
                    });
                }
                proof {
                    lemma_steps_extend(old_steps, steps@, start as int, x, w, consumed as int, p);
                    lemma_step_cut(windows@, j as int, chunk, start as int, k as int, u, p, consumed as int, remaining as int);
                    if consumed > 0 && consumed < remaining {
                        assert forall|i: int| 0 <= i < steps@.len() implies step_cut((#[trigger] steps@[i]).window, start as int, u, p) by {
                            if i < old_steps.len() {
                                assert(steps@[i] == old_steps[i]);
                            }
                        }
                    }
                }
                if remaining <= w.duration() {
                    let result = (w.start as i128 + remaining) as i64;
                    proof {
                        let r = result as int;
                        assert(r <= w.end);
                        assert(w.end <= chunk.end);
                        assert forall|t: int| w.start <= t < r implies #[trigger] p(t) by {
                            assert(w.has(t));
                            assert(covers_at(windows@, t));
                        }
                        lemma_count_all(w.start as int, r, p);
                        lemma_count_split(start as int, w.start as int, r, p);
                        assert(count_where(start as int, r, p) == duration);
                        assert forall|y: int| start <= y < r implies #[trigger] count_where(start as int, y, p) < duration by {
                            lemma_count_monotone(start as int, y, r - 1, p);
                            lemma_count_all(w.start as int, r - 1, p);
                            lemma_count_split(start as int, w.start as int, r - 1, p);
                        }
                        lemma_count_monotone(start as int, r, u, p);
                        assert(u == search_end(start as int, search_until));
                        assert(count_where(start as int, u, p) >= duration);
                        assert(reaches(start as int, r, duration as int, p));
                    }
                    proof {
                        assert(steps@.last().window.end == result);
                        assert forall|i: int| 0 <= i < steps@.len() implies step_cut((#[trigger] steps@[i]).window, start as int, result as int, p) by {
                            if i < steps@.len() - 1 {
                                assert(steps@[i] == old_steps[i]);
                                assert(step_cut(old_steps[i].window, start as int, u, p));
                                assert(steps@[i].window.end <= steps@[steps@.len() - 1].window.start);
                                assert(steps@[steps@.len() - 1].window.start < steps@[steps@.len() - 1].window.end);
                            }
                        }
                        assert forall|i: int| 0 <= i < steps@.len() implies (#[trigger] steps@[i]).window.end <= result by {
                            if i < steps@.len() - 1 {
                                assert(steps@[i].window.end <= steps@[steps@.len() - 1].window.start);
                            }
                        }
                    }
                    return Ok(WorkingTimeTrace { start, requested_duration: duration, result, steps });
                }
                remaining = remaining - w.duration();
                j = j + 1;
            }
            proof {
                let x = if j == 0 { chunk.start as int } else { windows@[j - 1].end as int };
                assert forall|t: int| x <= t < chunk.end implies !#[trigger] p(t) by {
                    assert(covers_at(windows@, t) <==> p(t));
                    if covers_at(windows@, t) {
                        let m = choose|m: int| 0 <= m < windows@.len() && (#[trigger] windows@[m]).has(t);
                        if m < j - 1 {
                            assert(windows@[m].end < windows@[j - 1].start);
                        }
                    }
                }
                lemma_count_none(x, chunk.end as int, p);
                lemma_count_split(start as int, x, chunk.end as int, p);
                lemma_steps_gap(steps@, start as int, x, chunk.end as int, p);
            }
            k = k + 1;
        }
        proof {
            if chunks.len() == 0 {
                lemma_count_bounds(start as int, u, p);
            }
        }
        Err(TimeGridError::DurationNotFound)
    }

    /// The first open instant at or after `start`, searching up to `search_until`
    /// (five years by default); `None` when the search range has none.
    pub fn get_next_open_time(&self, start: i64, search_until: Option<i64>) -> (r: Result<Option<i64>, TimeGridError>)
        requires
            wf(*self),
            valid_instant(start as int),
            work_search_fits(start as int, 1, search_until),
        ensures
            next_open_found(*self, start, search_until, r),

    {
        let until: i64 = match search_until {
            Some(u) => u,
            None => start + DEFAULT_SEARCH_YEARS_DAYS * MICROS_PER_DAY,
        };
        let ghost u = until as int;
        let ghost p = chunk_pred(*self, start as int);
        let chunks = search_chunks(start, until, 0);
        let mut k: usize = 0;
        while k < chunks.len()
            invariant
                wf(*self),
                valid_instant(start as int),
                valid_instant(until as int),
                u == until,
                u == search_end(start as int, search_until),
                p == chunk_pred(*self, start as int),
                chunk_chain(chunks@, start as int, u, 0),
                forall|i: int| 0 <= i < chunks.len() ==> start <= (#[trigger] chunks@[i]).start && chunks@[i].end <= until,
                k <= chunks.len(),
                forall|t: int| start <= t < (if k < chunks.len() { chunks@[k as int].start as int } else { u }) ==> !#[trigger] p(t),
            decreases chunks.len() - k,
        {
            let chunk = chunks[k];
            proof {
                if k + 1 < chunks.len() {
                    assert(chunks@[k + 1].start == next_cursor(chunk.start as int, u, 0));
                }
                assert(valid_instant(chunk.start as int) && valid_instant(chunk.end as int));
            }
            let windows = match self.get_open_windows(chunk.start, chunk.end) {
                Ok(ws) => ws,
                Err(e) => {
                    return Err(e);
                },
            };
            proof {
                lemma_work_chunks(chunks@, start as int, u, 0);
                lemma_chunk_windows(*self, start as int, k as int, chunk, windows@);
            }
            if windows.len() > 0 {
                let first = windows[0];
                let result = if first.contains(start) {
                    start
                } else {
                    first.start
                };
                proof {
                    assert(chunk.start <= first.start < first.end <= chunk.end);
                    assert(covers_at(windows@, first.start as int));
                    assert forall|t: int| start <= t < result implies !#[trigger] p(t) by {
                        if t >= chunk.start {
                            if covers_at(windows@, t) {
                                let m = choose|m: int| 0 <= m < windows@.len() && (#[trigger] windows@[m]).has(t);
                                if m > 0 {
                                    assert(windows@[0].end < windows@[m].start);
                                }
                            }
                        }
                    }
                }
                return Ok(Some(result));
            }
            proof {
                assert forall|t: int| start <= t < chunk.end implies !#[trigger] p(t) by {
                    if t >= chunk.start {
                        assert(!covers_at(windows@, t));
                    }
                }
            }
            k = k + 1;
        }
        Ok(None)
    }

    /// The first window of `duration` from `start` on whose capacity is at
    /// least `minimum_capacity` throughout, searching up to `search_until`
    /// (five years by default); for a zero duration, the empty window at the
    /// first such instant.
    pub fn find_first_slot(
        &self,
        start: i64,
        duration: i128,
        minimum_capacity: i32,
        search_until: Option<i64>,
    ) -> (r: Result<Option<Window>, TimeGridError>)
        requires
            wf(*self),
            valid_instant(start as int),
            valid_span(duration as int),
            slot_search_fits(start as int, duration as int, minimum_capacity as int, search_until),
        ensures
            slot_found(*self, start, duration, minimum_capacity, search_until, r),

    {
        if duration < 0 {
            return Err(TimeGridError::NegativeDuration);
        }
        crate::calendar::validate_positive_capacity(minimum_capacity)?;
        let until: i64 = match search_until {
            Some(u) => u,
            None => start + DEFAULT_SEARCH_YEARS_DAYS * MICROS_PER_DAY,
        };
        let ghost u = until as int;
        let ghost m = minimum_capacity as int;
        let ghost q = level_pred(*self, start as int, u, m);
        let ghost exact = exact_range(*self, start as int, u);
        let ghost d = duration as int;
        let chunks = search_chunks(start, until, duration);
        proof {
            if d == 0 {
                lemma_work_chunks(chunks@, start as int, u, d);
            }
            lemma_chunk_cursors(chunks@, start as int, u, d);
        }
        let mut k: usize = 0;
        while k < chunks.len()
            invariant
                wf(*self),
                valid_instant(start as int),
                valid_instant(until as int),
                u == until,
                u == search_end(start as int, search_until),
                m == minimum_capacity,
                minimum_capacity > 0,
                q == level_pred(*self, start as int, u, m),
                exact == exact_range(*self, start as int, u),
                d == duration,
                0 <= duration <= MAX_SPAN,
                chunk_chain(chunks@, start as int, u, d),
                forall|i: int| 0 <= i < chunks.len() ==> start <= (#[trigger] chunks@[i]).start && chunks@[i].end <= until,
                k <= chunks.len(),
                exact && d == 0 ==> forall|t: int| start <= t < (if k < chunks.len() { chunks@[k as int].start as int } else { u }) ==> !#[trigger] q(t),
                exact && d > 0 ==> forall|s: int| start <= s < (if k < chunks.len() { chunks@[k as int].start as int } else { u }) && s + d <= u ==> !#[trigger] slot_at(s, d, q),
                d == 0 ==> forall|i: int| 0 <= i < chunks.len() ==> (#[trigger] chunks@[i]).start == start + i
                    * week_span() && chunks@[i].end <= chunks@[i].start + week_span(),
                forall|i: int| 0 <= i < chunks.len() ==> (#[trigger] chunks@[i]).start == cursor_at(start as int, u, d, i as nat),
                d == 0 ==> forall|t: int| start <= t < (if k < chunks.len() { chunks@[k as int].start as int } else { u }) ==> !#[trigger] level_chunk_pred(*self, start as int, m)(t),
                d > 0 ==> forall|i: nat, s: int| i < k ==> !#[trigger] chunk_slot(*self, start as int, u, d, m, i, s),
            decreases chunks.len() - k,
        {
            let chunk = chunks[k];
            proof {
                assert(valid_instant(chunk.start as int) && valid_instant(chunk.end as int));
            }
            let windows = match self.windows_with_capacity(chunk.start, chunk.end, minimum_capacity) {
                Ok(ws) => ws,
                Err(e) => {
                    return Err(e);
                },
            };
            let ghost ql = chunk_level(*self, start as int, u, d, m, k as nat);
            proof {
                if exact {
                    lemma_level_windows_exact(*self, start as int, u, m, chunk.start as int, chunk.end as int, windows@);
                }
                assert(chunk == chunks@[k as int]);
                assert(chunk.end == chunk_end(chunk.start as int, u, d));
                assert(chunk.start == cursor_at(start as int, u, d, k as nat));
                assert forall|t: int| chunk.start <= t < chunk.end implies (#[trigger] covers_at(windows@, t) <==> ql(t)) by {
                    assert(covers_at(windows@, t) <==> query_value(*self, chunk.start as int, t) >= m);
                }
            }
            let mut j: usize = 0;
            while j < windows.len()
                invariant
                    canonical(windows@),
                    within(windows@, chunk),
                    chunk.start < chunk.end,
                    start <= chunk.start,
                    chunk.end <= until,
                    j <= windows.len(),
                    d == duration,
                    0 <= duration <= MAX_SPAN,
                    d == 0 ==> j == 0,
                    minimum_capacity > 0,
                    m == minimum_capacity,
                    q == level_pred(*self, start as int, u, m),
                    exact == exact_range(*self, start as int, u),
                    forall|n: int| 0 <= n < j ==> (#[trigger] windows@[n]).end - windows@[n].start < d,
                    exact ==> forall|t: int| chunk.start <= t < chunk.end ==> (#[trigger] covers_at(windows@, t) <==> q(t)),
                    exact && d == 0 ==> forall|t: int| start <= t < chunk.start ==> !#[trigger] q(t),
                    exact && d > 0 ==> forall|s: int| start <= s < chunk.start && s + d <= u ==> !#[trigger] slot_at(s, d, q),
                    d == 0 ==> chunk.start == start + k * week_span() && chunk.end <= chunk.start + week_span(),
                    ql == chunk_level(*self, start as int, u, d, m, k as nat),
                    chunk.start == cursor_at(start as int, u, d, k as nat),
                    chunk.end == chunk_end(chunk.start as int, u, d),
                    forall|t: int| chunk.start <= t < chunk.end ==> (#[trigger] covers_at(windows@, t) <==> ql(t)),
                    forall|t: int| chunk.start <= t < chunk.end ==> (#[trigger] covers_at(windows@, t) <==> query_value(*self, chunk.start as int, t) >= m),
                    d == 0 ==> forall|t: int| start <= t < chunk.start ==> !#[trigger] level_chunk_pred(*self, start as int, m)(t),
                    d > 0 ==> forall|i: nat, s: int| i < k ==> !#[trigger] chunk_slot(*self, start as int, u, d, m, i, s),
                    u == until,
                    u == search_end(start as int, search_until),
                    valid_instant(start as int),
                decreases windows.len() - j,
            {
                let w = windows[j];
                if duration == 0 {
                    proof {
                        if exact {
                            assert(covers_at(windows@, w.start as int));
                            assert forall|t: int| start <= t < w.start implies !#[trigger] q(t) by {
                                if t >= chunk.start {
                                    if covers_at(windows@, t) {
                                        let n = choose|n: int| 0 <= n < windows@.len() && (#[trigger] windows@[n]).has(t);
                                        if n > 0 {
                                            assert(windows@[0].end < windows@[n].start);
                                        }
                                    }
                                }
                            }
                        }
                    }
                    proof {
                        let q0 = level_chunk_pred(*self, start as int, m);
                        assert(covers_at(windows@, w.start as int));
                        lemma_chunk_of(start as int, k as int, w.start as int);
                        assert forall|t: int| start <= t < w.start implies !#[trigger] q0(t) by {
                            if t >= chunk.start {
                                lemma_chunk_of(start as int, k as int, t);
                                if covers_at(windows@, t) {
                                    let n = choose|n: int| 0 <= n < windows@.len() && (#[trigger] windows@[n]).has(t);
                                    if n > 0 {
                                        assert(windows@[0].end < windows@[n].start);
                                    }
                                }
                            }
                        }
                    }
                    return Ok(Some(Window { start: w.start, end: w.start }));
                }
                if w.duration() >= duration {
                    let slot = Window { start: w.start, end: (w.start as i128 + duration) as i64 };
                    proof {
                        if exact {
                            assert forall|t: int| w.start <= t < w.start + d implies #[trigger] q(t) by {
                                assert(w.has(t));
                                assert(covers_at(windows@, t));
                            }
                            {
                                assert forall|s: int| start <= s < w.start implies !#[trigger] slot_at(s, d, q) by {
                                    if slot_at(s, d, q) && s >= chunk.start {
                                        assert(q(s));
                                        assert(covers_at(windows@, s));
                                        let n = choose|n: int| 0 <= n < windows@.len() && (#[trigger] windows@[n]).has(s);
                                        if n > j {
                                            assert(w.end < windows@[n].start);
                                        }
                                        if s + d <= chunk.end {
                                            lemma_run_extends(windows@, chunk, q, n, s, s + d);
                                        }
                                    }
                                }
                            }
                        }
                    }
                    proof {
                        lemma_found_run(windows@, chunk.start as int, chunk.end as int, ql, d, j as int);
                        assert(chunk_slot(*self, start as int, u, d, m, k as nat, w.start as int));
                        assert forall|s: int| s < w.start implies !#[trigger] chunk_slot(*self, start as int, u, d, m, k as nat, s) by {
                            assert(!run_slot(chunk.start as int, chunk.end as int, ql, d, s));
                        }
                        let found = Ok::<Option<Window>, TimeGridError>(Some(slot));
                        assert(found matches Ok(Some(w)) ==> start <= w.start && w.end == w.start + duration && w.start
                            < search_end(start as int, search_until) && w.end <= search_end(start as int, search_until));
                        assert({
                            let u = search_end(start as int, search_until);
                            let d = duration as int;
                            let m = minimum_capacity as int;
                            found matches Ok(Some(w)) ==> exists|i: nat| #[trigger] chunk_slot(*self, start as int, u, d, m, i, w.start as int)
                                && (forall|s: int| s < w.start ==> !#[trigger] chunk_slot(*self, start as int, u, d, m, i, s))
                                && (forall|j: nat, s: int| j < i ==> !#[trigger] chunk_slot(*self, start as int, u, d, m, j, s))
                        });
                    }
                    return Ok(Some(slot));
                }
                j = j + 1;
            }
            proof {
                if d == 0 {
                    let q0 = level_chunk_pred(*self, start as int, m);
                    assert forall|t: int| start <= t < chunk.end implies !#[trigger] q0(t) by {
                        if t >= chunk.start {
                            lemma_chunk_of(start as int, k as int, t);
                            assert(!covers_at(windows@, t));
                        }
                    }
                }
                if d > 0 {
                    lemma_no_run(windows@, chunk.start as int, chunk.end as int, ql, d);
                    assert forall|i: nat, s: int| i < k + 1 implies !#[trigger] chunk_slot(*self, start as int, u, d, m, i, s) by {
                        if i == k {
                            assert(!run_slot(chunk.start as int, chunk.end as int, ql, d, s));
                        }
                    }
                }
                if exact && d == 0 {
                    assert forall|t: int| start <= t < chunk.end implies !#[trigger] q(t) by {
                        if t >= chunk.start {
                            assert(!covers_at(windows@, t));
                        }
                    }
                }
                if k + 1 < chunks.len() {
                    assert(chunks@[k + 1].start == next_cursor(chunk.start as int, u, d));
                    assert(chunks@[k + 1].start < chunks@[k + 1].end);
                    assert(chunk.end < u);
                }
                if exact && d > 0 {
                    let next = if k + 1 < chunks.len() { chunks@[k + 1].start as int } else { u };
                    assert(chunk == chunks@[k as int]);
                    assert(chunk.end == chunk_end(chunk.start as int, u, d));
                    if k + 1 < chunks.len() {
                        assert(chunk.end == chunk.start + chunk_size(d));
                        assert(next + d <= chunk.end);
                    } else {
                        assert(chunk.end == u);
                    }
                    assert forall|s: int| start <= s < next && s + d <= u implies !#[trigger] slot_at(s, d, q) by {
                        if slot_at(s, d, q) && s >= chunk.start {
                            assert(s + d <= chunk.end);
                            assert(q(s));
                            assert(covers_at(windows@, s));
                            let n = choose|n: int| 0 <= n < windows@.len() && (#[trigger] windows@[n]).has(s);
                            lemma_run_extends(windows@, chunk, q, n, s, s + d);
                        }
                    }
                }
            }
            k = k + 1;
        }
        proof {
            if d > 0 {
                assert forall|i: nat, s: int| !#[trigger] chunk_slot(*self, start as int, u, d, m, i, s) by {
                    if i >= chunks.len() {
                        lemma_cursor_past(chunks@, start as int, u, d, i);
                    }
                }
            }
        }
        Ok(None)
    }

    /// The working time in `[start, end)`: the total length of its open windows.
    pub fn get_working_duration(&self, start: i64, end: i64) -> (r: Result<i128, TimeGridError>)
        requires
            wf(*self),
            valid_instant(start as int),
            valid_instant(end as int),
        ensures
            working_measured(*self, start, end, r),

    {
        let windows = self.get_open_windows(start, end)?;
        let mut total: i128 = 0;
        let mut i: usize = 0;
        proof {
            assert(windows@.take(0) =~= Seq::<Window>::empty());
        }
        while i < windows.len()
            invariant
                i <= windows.len(),
                valid_instant(start as int),
                valid_instant(end as int),
                canonical(windows@),
                within(windows@, Window { start, end }),
                total == total_span(windows@.take(i as int)),
                0 <= total <= i64::MAX as int * 2,
                i < windows.len() ==> total <= windows@[i as int].start - start,
                i == windows.len() ==> total <= end - start,
            decreases windows.len() - i,
        {
            proof {
                assert(windows@.take(i + 1).drop_last() =~= windows@.take(i as int));
                if i + 1 < windows.len() {
                    assert(windows@[i as int].end < windows@[i + 1].start);
                }
            }
            let ghost before = total;
            total = total + windows[i].duration();
            proof {
                assert(total <= windows@[i as int].end - start);
                assert(windows@[i as int].end <= end);
            }
            i = i + 1;
        }
        proof {
            assert(windows@.take(windows.len() as int) =~= windows@);
            assert forall|p: spec_fn(int) -> bool| exact_open(*self, start as int, end as int, p) implies total
                == count_where(start as int, end as int, p) by {
                lemma_open_windows_exact(*self, start as int, end as int, p, start as int, end as int, windows@);
                lemma_count_canonical(windows@, start as int, end as int);
                lemma_count_same(start as int, end as int, |t: int| covers_at(windows@, t), p);
            }
            lemma_count_canonical(windows@, start as int, end as int);
            lemma_count_same(
                start as int,
                end as int,
                |t: int| covers_at(windows@, t),
                |t: int| query_value(*self, start as int, t) >= 1,
            );
        }
        Ok(total)
    }
}

} // verus!
