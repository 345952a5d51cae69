//! TimeGrid: business hours, availability, downtime, capacity and working-time
//! calculations over weekly rules and dated windows.
#![allow(non_snake_case)]

pub mod error;
pub mod time;
pub mod sort;
pub mod windows;
pub mod rules;
pub mod text;
pub mod calendar;
pub mod states;
pub mod measure;
pub mod search;
pub mod around;
pub mod analysis;
pub mod timeline;
pub mod definition;
pub mod laws;
pub mod api;
pub mod grid;
pub mod queries;

pub use api::{
    DayOfWeek, PyWorkingTimeTraceStep, TimeGridCapacityWindow, TimeGridEntry, TimeGridEntryKind,
    TimeGridStateWindow, TimeGridWeeklyRule, TimeGridWindowKind, TimeGridWindowMatch, TimeWindow,
};
pub use analysis::{TimeGridInstantAnalysis, TimeGridTimelineAnalysis};
pub use definition::TimeGridDefinition;
pub use error::TimeGridError;
pub use grid::{Target, TimeGridCalendar};
pub use queries::{TimeGridPointQuery, TimeGridRangeQuery};
pub use search::WorkingTimeTrace;
pub use timeline::{TimeGridTimeline, TimeGridTimelineBatch};
