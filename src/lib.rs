//! Nanosecond-precision civil time: durations, calendar dates, times of day,
//! instants, and their conversion through time-zone offset schedules.

pub mod date;
pub use date::{
    is_leap_year, BusinessDaysBetween, Date, DateError, DatesBetween, DayOfWeek, Days, Month,
    WeekdaysBetween,
};

pub mod ofday;
pub use ofday::{OfDay, OfDayError, ParseOfDayError};

pub mod span;
pub use span::{ParseSpanError, Span};

pub mod span_round_trip;

pub mod text;

pub mod time;
pub use time::{Time, TimeParseError};

pub mod timezone;
pub use timezone::{TzError, TzInfo, TzOffset};

pub mod tz;
pub use tz::{Tz, TzParseError};
