//! Analyses of an instant and of a range: the capacity, the state window and
//! the transitions around an instant, and the working time of a segmentation.
use vstd::prelude::*;
use crate::error::TimeGridError;
use crate::time::{Window, valid_instant, duration_to_ticks};
use crate::calendar::{Calendar, wf, capacity_at};
use crate::states::{StateWindow, segmentation, values_match, lemma_segmentation_prefix};
use crate::measure::{count_where, lemma_count_split, lemma_count_all, lemma_count_none};
use crate::rules::WindowMatch;
use crate::search::radius_fits;
use crate::around::{
    next_transition_found, previous_transition_found, current_window_found, windows_found,
};

verus! {

broadcast use vstd::seq_lib::group_seq_properties;

/// The instants where the capacity `f` allows work.
pub open spec fn works(f: spec_fn(int) -> int) -> spec_fn(int) -> bool {
    |t: int| f(t) > 0
}

/// The total length of the windows of `s` that allow work.
pub open spec fn work_span(s: Seq<StateWindow>) -> int
    decreases s.len(),
{
    if s.len() == 0 {
        0
    } else {
        work_span(s.drop_last()) + if s.last().capacity > 0 {
            s.last().window.span()
        } else {
            0
        }
    }
}

/// The working windows of a segmentation add up to the number of its working instants.
pub proof fn lemma_work_span(s: Seq<StateWindow>, a: int, b: int, f: spec_fn(int) -> int)
    requires
        segmentation(s, a, b),
        values_match(s, f),
    ensures
        work_span(s) == count_where(a, b, works(f)),
        0 <= work_span(s),
        a <= b ==> work_span(s) <= b - a,
    decreases s.len(),
{
    let p = works(f);
    let n = s.len();
    if n == 0 {
    } else {
        let last = s[n - 1];
        let m = if n == 1 {
            a
        } else {
            s[n - 2].window.end as int
        };
        if n >= 2 {
            lemma_segmentation_prefix(s, a, b);
            let d = s.drop_last();
            assert forall|i: int, t: int| 0 <= i < d.len() && #[trigger] d[i].window.has(t) implies d[i].capacity
                == f(t) by {
                assert(d[i] == s[i]);
            }
            lemma_work_span(d, a, m, f);
        }
        assert(last.window.start == m);
        assert(last.window.end == b);
        if last.capacity > 0 {
            assert forall|t: int| m <= t < b implies #[trigger] p(t) by {
                assert(last.window.has(t));
            }
            lemma_count_all(m, b, p);
        } else {
            assert forall|t: int| m <= t < b implies !#[trigger] p(t) by {
                assert(last.window.has(t));
            }
            lemma_count_none(m, b, p);
        }
        lemma_count_split(a, m, b, p);
        assert(s.last() == last);
        if n == 1 {
            assert(s.drop_last().len() == 0);
            assert(work_span(s.drop_last()) == 0);
        }
        assert(work_span(s.drop_last()) == count_where(a, m, p));
    }
}

/// The total length of the working windows of a segmentation of `[a, b)`.
pub fn working_span(segments: &Vec<StateWindow>, Ghost(a): Ghost<int>, Ghost(b): Ghost<int>) -> (r: i128)
    requires
        segmentation(segments@, a, b),
        valid_instant(a),
        valid_instant(b),
    ensures
        r == work_span(segments@),
        0 <= r,
        a <= b ==> r <= b - a,
{
    let mut total: i128 = 0;
    let mut i: usize = 0;
    proof {
        assert(segments@.take(0) =~= Seq::<StateWindow>::empty());
        if segments.len() > 0 {
            assert(segments@[0].window.start == a);
        }
    }
    while i < segments.len()
        invariant
            i <= segments.len(),
            segmentation(segments@, a, b),
            valid_instant(a),
            valid_instant(b),
            total == work_span(segments@.take(i as int)),
            0 <= total,
            i < segments.len() ==> total <= segments@[i as int].window.start - a,
            i == segments.len() && i > 0 ==> total <= b - a,
        decreases segments.len() - i,
    {
        proof {
            assert(segments@.take(i + 1).drop_last() =~= segments@.take(i as int));
            if i + 1 < segments.len() {
                assert(segments@[i as int].window.end == segments@[i + 1].window.start);
            } else {
                assert(segments@[i as int].window.end == b);
            }
            if i == 0 {
                assert(segments@[0].window.start == a);
            }
        }
        let st = segments[i];
        if st.can_work() {
            total = total + st.window.duration();
        }
        i = i + 1;
    }
    proof {
        assert(segments@.take(segments.len() as int) =~= segments@);
    }
    total
}

/// An analysis of one instant: its capacity, the state window holding it, the
/// transitions on either side, and the windows of the calendar that hold it.
#[derive(Debug)]
pub struct TimeGridInstantAnalysis {
    pub instant: i64,
    pub capacity: i32,
    pub current_window: Option<Window>,
    pub previous_transition: Option<i64>,
    pub next_transition: Option<i64>,
    pub matches: Vec<WindowMatch>,
}

impl TimeGridInstantAnalysis {
    /// The instant analysed.
    pub fn Instant(&self) -> (r: i64)
        ensures
            r == self.instant,
    {
        self.instant
    }

    /// The capacity at the instant.
    pub fn Capacity(&self) -> (r: i32)
        ensures
            r == self.capacity,
    {
        self.capacity
    }

    /// The state window holding the instant.
    pub fn CurrentWindow(&self) -> (r: Option<Window>)
        ensures
            r == self.current_window,
    {
        self.current_window
    }

    /// The last change of capacity before the instant.
    pub fn PreviousTransition(&self) -> (r: Option<i64>)
        ensures
            r == self.previous_transition,
    {
        self.previous_transition
    }

    /// The first change of capacity after the instant.
    pub fn NextTransition(&self) -> (r: Option<i64>)
        ensures
            r == self.next_transition,
    {
        self.next_transition
    }

    /// The windows holding the instant.
    pub fn Matches(&self) -> (r: Vec<WindowMatch>)
        ensures
            r@ == self.matches@,
    {
        crate::calendar::copy_vec(&self.matches)
    }

    /// The instant allows work.
    pub fn CanWork(&self) -> (b: bool)
        ensures
            b == (self.capacity > 0),
    {
        self.capacity > 0
    }
}

/// An analysis of a range: its state windows.
#[derive(Debug)]
pub struct TimeGridTimelineAnalysis {
    pub window: Window,
    pub segments: Vec<StateWindow>,
}

/// The segments cut the analysed window, which lies among the representable instants.
pub open spec fn analysis_wf(a: TimeGridTimelineAnalysis) -> bool {
    &&& valid_instant(a.window.start as int)
    &&& valid_instant(a.window.end as int)
    &&& segmentation(a.segments@, a.window.start as int, a.window.end as int)
}

impl TimeGridTimelineAnalysis {
    /// The window analysed.
    pub fn Window(&self) -> (r: Window)
        ensures
            r == self.window,
    {
        self.window
    }

    /// The state windows of the range.
    pub fn Segments(&self) -> (r: Vec<StateWindow>)
        ensures
            r@ == self.segments@,
    {
        crate::calendar::copy_vec(&self.segments)
    }

    /// The working time of the range: the total length of its working segments.
    pub fn working_duration(&self) -> (r: i128)
        requires
            analysis_wf(*self),
        ensures
            r == work_span(self.segments@),
            forall|f: spec_fn(int) -> int| values_match(self.segments@, f) ==> r == count_where(
                self.window.start as int,
                self.window.end as int,
                #[trigger] works(f),
            ),
    {
        let r = working_span(&self.segments, Ghost(self.window.start as int), Ghost(self.window.end as int));
        proof {
            assert forall|f: spec_fn(int) -> int| values_match(self.segments@, f) implies r == count_where(
                self.window.start as int,
                self.window.end as int,
                #[trigger] works(f),
            ) by {
                lemma_work_span(self.segments@, self.window.start as int, self.window.end as int, f);
            }
        }
        r
    }

    /// The working time of the range in ticks of a tenth of a microsecond.
    pub fn WorkingTicks(&self) -> (r: Result<i64, TimeGridError>)
        requires
            analysis_wf(*self),
        ensures
            r matches Ok(v) ==> v == work_span(self.segments@) * 10,
            r is Ok <==> work_span(self.segments@) * 10 <= i64::MAX,
            r is Err ==> r == Err::<i64, TimeGridError>(TimeGridError::TickOverflow),
    {
        let d = working_span(&self.segments, Ghost(self.window.start as int), Ghost(self.window.end as int));
        duration_to_ticks(d)
    }
}

impl Calendar {
    /// The analysis of `instant`: its capacity, the state window holding it
    /// (open or unavailable as the capacity says), the transitions on either
    /// side and the windows holding it, within the search radius.
    pub fn instant_analysis(&self, instant: i64, search_radius: Option<i128>) -> (r: Result<TimeGridInstantAnalysis, TimeGridError>)
        requires
            wf(*self),
            valid_instant(instant as int),
            radius_fits(instant as int, search_radius),
        ensures
            crate::search::radius_of(search_radius) <= 0 ==> r == Err::<TimeGridInstantAnalysis, TimeGridError>(
                TimeGridError::SearchRadiusNotPositive,
            ),
            crate::search::radius_of(search_radius) > 0 ==> r is Ok,
            r matches Ok(a) ==> {
                &&& a.instant == instant
                &&& a.capacity == capacity_at(*self, instant as int)
                &&& current_window_found(*self, instant as int, search_radius, a.capacity > 0, a.current_window)
                &&& previous_transition_found(*self, instant as int, search_radius, a.previous_transition)
                &&& next_transition_found(*self, instant as int, search_radius, a.next_transition)
                &&& windows_found(*self, instant as int, search_radius, a.matches@)
            },
    {
        let capacity = self.get_capacity_at(instant);
        let current_window = if capacity > 0 {
            self.get_current_open_window(instant, search_radius)?
        } else {
            self.get_current_unavailable_window(instant, search_radius)?
        };
        let previous_transition = self.get_previous_transition_time(instant, search_radius)?;
        let next_transition = self.get_next_transition_time(instant, search_radius)?;
        let matches = self.get_windows_at(instant, search_radius)?;
        Ok(TimeGridInstantAnalysis { instant, capacity, current_window, previous_transition, next_transition, matches })
    }

    /// The analysis of `[start, end)`: its state windows.
    pub fn range_analysis(&self, start: i64, end: i64) -> (r: Result<TimeGridTimelineAnalysis, TimeGridError>)
        requires
            wf(*self),
            valid_instant(start as int),
            valid_instant(end as int),
        ensures
            end < start ==> r == Err::<TimeGridTimelineAnalysis, TimeGridError>(TimeGridError::EndBeforeStart),
            start <= end ==> r is Ok,
            r matches Ok(a) ==> a.window == (Window { start, end }) && analysis_wf(a),
            r matches Ok(a) ==> (crate::time::core_range(start as int, end as int) ==> values_match(
                a.segments@,
                |t: int| capacity_at(*self, t),
            )),
            r matches Ok(a) ==> (!crate::calendar::composite(*self) ==> values_match(
                a.segments@,
                |t: int| crate::states::win_capacity(*self, t),
            )),
            r matches Ok(a) ==> (crate::calendar::composite(*self) ==> crate::states::starts_match(a.segments@, *self)),
            r matches Ok(a) ==> values_match(a.segments@, |t: int| crate::states::query_value(*self, start as int, t)),
    {
        let segments = self.get_state_windows(start, end)?;
        Ok(TimeGridTimelineAnalysis { window: Window { start, end }, segments })
    }
}

} // verus!
