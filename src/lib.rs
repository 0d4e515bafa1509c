//! Human-readable durations: a duration is broken down into years, months, weeks, days,
//! hours, minutes, seconds, milliseconds, microseconds and nanoseconds, rendered as text such as
//! `"1h 20m 30s"`, and parsed back from such text.

pub mod breakdown;
pub mod fancy;
pub mod laws;
pub mod round_trip;
pub mod text;

pub use breakdown::{DurationBreakdown, DurationPart};
pub use fancy::{AsFancyDuration, AsTimes, FancyDuration, ParseFancyDuration};
pub use text::ParseError;
