//! The errors of the library, one variant per way an operation can be refused.
use vstd::prelude::*;

verus! {

/// The class of error a caller reports: a bad argument, an operation the
/// object's state does not allow, or a result that does not fit its type.
#[derive(Clone, Copy, Debug, PartialEq, Eq, Structural)]
pub enum ErrorClass {
    Value,
    Runtime,
    Overflow,
}

/// Why an operation was refused.
#[derive(Clone, Copy, Debug, PartialEq, Eq, Structural)]
pub enum TimeGridError {
    EndBeforeStart,
    DayOutOfRange,
    SameStartAndEnd,
    CompositeNotEditable,
    NegativeCapacity,
    DateOverflow,
    NegativeDuration,
    DurationNotFound,
    RequiredCapacityNotPositive,
    EmptyEntryId,
    SearchRadiusNotPositive,
    NoCalendars,
    CompositeNotSerializable,
    OutsideTimeline,
    RangeOutsideTimeline,
    TickOverflow,
    EmptyJson,
}

impl TimeGridError {
    /// The class of the error.
    pub fn class(&self) -> (c: ErrorClass)
        ensures
            c == (match *self {
                TimeGridError::CompositeNotEditable
                | TimeGridError::DurationNotFound
                | TimeGridError::CompositeNotSerializable => ErrorClass::Runtime,
                TimeGridError::DateOverflow | TimeGridError::TickOverflow => ErrorClass::Overflow,
                _ => ErrorClass::Value,
            }),
    {
        match self {
            TimeGridError::CompositeNotEditable
            | TimeGridError::DurationNotFound
            | TimeGridError::CompositeNotSerializable => ErrorClass::Runtime,
            TimeGridError::DateOverflow | TimeGridError::TickOverflow => ErrorClass::Overflow,
            _ => ErrorClass::Value,
        }
    }

    /// The message shown to the user.
    pub fn message(&self) -> (r: &'static str)
        ensures
            r@ == (match *self {
                TimeGridError::EndBeforeStart => "End must be greater than or equal to start."@,
                TimeGridError::DayOutOfRange => "Day must be in DayOfWeek range 0..6."@,
                TimeGridError::SameStartAndEnd => "Start and end cannot be the same time."@,
                TimeGridError::CompositeNotEditable => "Composite calendars are query-only. Add rules to source calendars before composing."@,
                TimeGridError::NegativeCapacity => "Capacity cannot be negative."@,
                TimeGridError::DateOverflow => "Date overflow."@,
                TimeGridError::NegativeDuration => "Duration cannot be negative."@,
                TimeGridError::DurationNotFound => "The requested working duration was not found inside the search range."@,
                TimeGridError::RequiredCapacityNotPositive => "Required capacity must be positive."@,
                TimeGridError::EmptyEntryId => "Entry id cannot be empty."@,
                TimeGridError::SearchRadiusNotPositive => "Search radius must be positive."@,
                TimeGridError::NoCalendars => "At least one calendar is required."@,
                TimeGridError::CompositeNotSerializable => "Composite calendars are query-only and cannot be serialized as one definition. Serialize the source calendars instead."@,
                TimeGridError::OutsideTimeline => "Timestamp is outside the compiled timeline."@,
                TimeGridError::RangeOutsideTimeline => "Range is outside the compiled timeline."@,
                TimeGridError::TickOverflow => "Duration tick overflow."@,
                TimeGridError::EmptyJson => "JSON cannot be empty."@,
            }),
    {
        match self {
            TimeGridError::EndBeforeStart => "End must be greater than or equal to start.",
            TimeGridError::DayOutOfRange => "Day must be in DayOfWeek range 0..6.",
            TimeGridError::SameStartAndEnd => "Start and end cannot be the same time.",
            TimeGridError::CompositeNotEditable =>
                "Composite calendars are query-only. Add rules to source calendars before composing.",
            TimeGridError::NegativeCapacity => "Capacity cannot be negative.",
            TimeGridError::DateOverflow => "Date overflow.",
            TimeGridError::NegativeDuration => "Duration cannot be negative.",
            TimeGridError::DurationNotFound =>
                "The requested working duration was not found inside the search range.",
            TimeGridError::RequiredCapacityNotPositive => "Required capacity must be positive.",
            TimeGridError::EmptyEntryId => "Entry id cannot be empty.",
            TimeGridError::SearchRadiusNotPositive => "Search radius must be positive.",
            TimeGridError::NoCalendars => "At least one calendar is required.",
            TimeGridError::CompositeNotSerializable =>
                "Composite calendars are query-only and cannot be serialized as one definition. Serialize the source calendars instead.",
            TimeGridError::OutsideTimeline => "Timestamp is outside the compiled timeline.",
            TimeGridError::RangeOutsideTimeline => "Range is outside the compiled timeline.",
            TimeGridError::TickOverflow => "Duration tick overflow.",
            TimeGridError::EmptyJson => "JSON cannot be empty.",
        }
    }
}

} // verus!
