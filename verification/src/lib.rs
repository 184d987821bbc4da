//! A small timestamp toolkit: relative-time phrases between two instants,
//! a heuristic that tells seconds from milliseconds, a compact duration
//! parser for timers, and a persisted list of timestamped markers.

use vstd::prelude::*;
use vstd::string::*;

pub mod duration;
pub mod markers;
pub mod relative;
pub mod storage;
pub mod text;

verus! {

/// Everything that an operation of this crate can refuse to do, surfaced as
/// a value rather than by ending the process.
#[derive(Clone, Copy, PartialEq, Eq, Structural, Debug)]
pub enum ClockError {
    /// An argument that should be a non-negative integer is not one.
    InvalidNumericInput,
    /// A timer duration that does not follow the compact `1h30m15s` shape.
    InvalidDurationFormat,
    /// A marker position outside the stored range.
    MarkerNotFound,
    /// The marker file could not be created, read or written.
    StorageIoError,
    /// The marker file exists but does not hold a well-formed store document.
    StorageParseError,
}

impl ClockError {
    /// A short user-facing description of the error.
    pub fn message(&self) -> (r: String)
        ensures
            *self == ClockError::InvalidNumericInput ==> r@ == "Invalid input. Provide a unix timestamp, or read the `--help` page."@,
            *self == ClockError::InvalidDurationFormat ==> r@ == "Invalid duration format. Provide a duration in the format of `1h30m15s`."@,
            *self == ClockError::MarkerNotFound ==> r@ == "No marker exists at that position."@,
            *self == ClockError::StorageIoError ==> r@ == "Could not access the marker file."@,
            *self == ClockError::StorageParseError ==> r@ == "Could not parse the marker file."@,
    {
        match self {
            ClockError::InvalidNumericInput => String::from_str(
                "Invalid input. Provide a unix timestamp, or read the `--help` page.",
            ),
            ClockError::InvalidDurationFormat => String::from_str(
                "Invalid duration format. Provide a duration in the format of `1h30m15s`.",
            ),
            ClockError::MarkerNotFound => String::from_str("No marker exists at that position."),
            ClockError::StorageIoError => String::from_str("Could not access the marker file."),
            ClockError::StorageParseError => String::from_str("Could not parse the marker file."),
        }
    }
}

/// The Unix-seconds value of the start of the year 3000. A bare timestamp at
/// least this large is implausible as human-entered seconds, so it is taken
/// to be milliseconds when no explicit unit was given.
pub const YEAR_3000_UNIX_SECONDS: u128 = 32503680000;

/// How an instant is scaled: a count of whole seconds or of milliseconds
/// since the Unix epoch.
#[derive(Clone, Copy, PartialEq, Eq, Structural, Debug)]
pub enum TimeUnit {
    Seconds,
    Milliseconds,
}

impl TimeUnit {
    /// Short display label for the unit.
    pub fn label(&self) -> (r: String)
        ensures
            *self == TimeUnit::Seconds ==> r@ == "Unix Sec"@,
            *self == TimeUnit::Milliseconds ==> r@ == "Unix Millisec"@,
    {
        match self {
            TimeUnit::Seconds => String::from_str("Unix Sec"),
            TimeUnit::Milliseconds => String::from_str("Unix Millisec"),
        }
    }
}

pub open spec fn spec_infer_unit(raw: u128, explicit: Option<TimeUnit>) -> TimeUnit {
    match explicit {
        Option::Some(u) => u,
        Option::None => if raw >= YEAR_3000_UNIX_SECONDS {
            TimeUnit::Milliseconds
        } else {
            TimeUnit::Seconds
        },
    }
}

/// Decide how a bare timestamp is to be read. An explicit unit always wins;
/// otherwise a value on or past the year 3000 (in seconds) is inferred to be
/// milliseconds, and anything earlier is seconds.
pub fn infer_unit(raw: u128, explicit: Option<TimeUnit>) -> (r: TimeUnit)
    ensures
        r == spec_infer_unit(raw, explicit),
{
    match explicit {
        Option::Some(u) => u,
        Option::None => {
            if raw >= YEAR_3000_UNIX_SECONDS {
                TimeUnit::Milliseconds
            } else {
                TimeUnit::Seconds
            }
        },
    }
}

} // verus!
