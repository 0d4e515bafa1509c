//! `FancyDuration`: a duration value of any type that can be seen as a
//! `(seconds, nanoseconds)` pair, with text formatting, parsing, filtering and truncation.

use vstd::prelude::*;
use vstd::string::StringSliceAdditionalSpecFns;
use vstd::utf8::encode_utf8;

use core::time::Duration;

use crate::breakdown::{
    decompose, filtered, lemma_below_sums, lemma_decompose_sums, lemma_filtered_truncated_below,
    nanos_of, seconds_of, truncated, DurationBreakdown, DurationPart, NANOS_PER_SEC,
};
use crate::text::{format_breakdown, format_times, parse_times, parse_to_ns, ParseError};

verus! {

/// The whole seconds of a `Duration`.
pub uninterp spec fn duration_secs(d: Duration) -> u64;

/// The fractional part of a `Duration`, in nanoseconds.
pub uninterp spec fn duration_subsec_nanos(d: Duration) -> u32;

/// Relies on `Duration::new`: the nanoseconds carry into the seconds, and the call panics
/// only where that carry overflows the seconds.
pub assume_specification[ core::time::Duration::new ](secs: u64, nanos: u32) -> (r: Duration)
    requires
        secs + nanos / 1_000_000_000 <= u64::MAX,
    ensures
        duration_secs(r) == secs + nanos / 1_000_000_000,
        duration_subsec_nanos(r) == nanos % 1_000_000_000,
;

/// Relies on `Duration::as_secs`: the whole seconds.
pub assume_specification[ core::time::Duration::as_secs ](d: &Duration) -> (r: u64)
    ensures
        r == duration_secs(*d),
;

/// Relies on `Duration::subsec_nanos`: the fractional part in nanoseconds, always below one
/// billion.
pub assume_specification[ core::time::Duration::subsec_nanos ](d: &Duration) -> (r: u32)
    ensures
        r == duration_subsec_nanos(*d),
        r < 1_000_000_000,
;

/// The pair that `(s, ns)` becomes once whole seconds in `ns` are carried into `s`.
pub open spec fn carried(s: u64, ns: u64) -> (int, int) {
    (s + ns / NANOS_PER_SEC, (ns % NANOS_PER_SEC) as int)
}

/// The seconds and nanoseconds left of `t` once every unit outside `parts` is dropped.
pub open spec fn filter_times(t: (u64, u64), parts: Seq<DurationPart>) -> (u64, u64) {
    let v = filtered(decompose(t.0, t.1), parts);
    (seconds_of(v) as u64, nanos_of(v) as u64)
}

/// The seconds and nanoseconds left of `t` once it is cut to `k` consecutive units from its
/// most significant nonzero one.
pub open spec fn truncate_times(t: (u64, u64), k: int) -> (u64, u64) {
    let v = truncated(decompose(t.0, t.1), k);
    (seconds_of(v) as u64, nanos_of(v) as u64)
}

/// A duration type that can be seen as a pair of whole seconds and nanoseconds below one
/// second, and built back from one.
pub trait AsTimes: Sized {
    /// The `(seconds, nanoseconds)` that the value stands for.
    spec fn times(&self) -> (u64, u64);

    /// The seconds and the sub-second nanoseconds of the value.
    fn as_times(&self) -> (r: (u64, u64))
        ensures
            r == self.times(),
            r.1 < NANOS_PER_SEC,
    ;

    /// Whether a value of this type can stand for `s` seconds and `ns` nanoseconds, the whole
    /// seconds in `ns` carried into `s`.
    spec fn holds(s: u64, ns: u64) -> bool;

    /// Reads a value from text: the text's own error where it cannot be read; else, where the
    /// type can hold the pair that `parse_to_ns` gives, a value for that pair with the
    /// nanoseconds carried into the seconds, and `OutOfRange` where it cannot.
    fn parse_to_duration(s: &str) -> (r: Result<Self, ParseError>)
        ensures
            parse_times(s.spec_bytes()) is Err ==> r == Err::<Self, ParseError>(
                parse_times(s.spec_bytes())->Err_0,
            ),
            parse_times(s.spec_bytes()) is Ok ==> {
                let p = parse_times(s.spec_bytes())->Ok_0;
                if Self::holds(p.0, p.1) {
                    &&& r is Ok
                    &&& r->Ok_0.times().0 == carried(p.0, p.1).0
                    &&& r->Ok_0.times().1 == carried(p.0, p.1).1
                } else {
                    r == Err::<Self, ParseError>(ParseError::OutOfRange)
                }
            },
    ;

    /// A value of this type for `s` seconds and `ns` nanoseconds.
    fn from_times(&self, s: u64, ns: u64) -> (r: Self)
        requires
            ns < NANOS_PER_SEC,
            s <= self.times().0,
        ensures
            r.times() == (s, ns),
    ;
}

/// What reading the text with bytes `b` into a `D` owes, as `AsTimes::parse_to_duration`
/// states it: the text's own error where it
/// cannot be read; else, where `D` can hold the pair it stands for, a value for that pair
/// with the nanoseconds carried into the seconds, and `OutOfRange` where `D` cannot.
pub open spec fn read_as<D: AsTimes>(b: Seq<u8>, r: Result<D, ParseError>) -> bool {
    match parse_times(b) {
        Err(e) => r == Err::<D, ParseError>(e),
        Ok(p) => if D::holds(p.0, p.1) {
            &&& r is Ok
            &&& r->Ok_0.times().0 == carried(p.0, p.1).0
            &&& r->Ok_0.times().1 == carried(p.0, p.1).1
        } else {
            r == Err::<D, ParseError>(ParseError::OutOfRange)
        },
    }
}

/// `(s, ns)` with the whole seconds in `ns` carried into `s`, or `None` where the seconds
/// then overflow.
pub fn carry(s: u64, ns: u64) -> (r: Option<(u64, u64)>)
    ensures
        r is Some <==> carried(s, ns).0 <= u64::MAX,
        r is Some ==> r->Some_0.0 == carried(s, ns).0 && r->Some_0.1 == carried(s, ns).1,
{
    if ns / NANOS_PER_SEC > u64::MAX - s {
        None
    } else {
        Some((s + ns / NANOS_PER_SEC, ns % NANOS_PER_SEC))
    }
}

/// A `Duration` for `s` seconds and `ns` nanoseconds, the nanoseconds carried into the
/// seconds; an error where `ns` exceeds `u32` or the carry overflows the seconds.
pub fn duration_from_parts(s: u64, ns: u64) -> (r: Result<Duration, ParseError>)
    ensures
        r is Ok <==> ns <= u32::MAX && carried(s, ns).0 <= u64::MAX,
        r is Err ==> r == Err::<Duration, ParseError>(ParseError::OutOfRange),
        r is Ok ==> duration_secs(r->Ok_0) == carried(s, ns).0 && duration_subsec_nanos(
            r->Ok_0,
        ) == carried(s, ns).1,
{
    if ns > u32::MAX as u64 {
        return Err(ParseError::OutOfRange);
    }
    match carry(s, ns) {
        Some(_) => Ok(Duration::new(s, ns as u32)),
        None => Err(ParseError::OutOfRange),
    }
}

impl AsTimes for Duration {
    open spec fn times(&self) -> (u64, u64) {
        (duration_secs(*self), duration_subsec_nanos(*self) as u64)
    }

    /// The nanoseconds fit the `u32` that `Duration::new` takes, and carrying them does not
    /// overflow the seconds.
    open spec fn holds(s: u64, ns: u64) -> bool {
        ns <= u32::MAX && carried(s, ns).0 <= u64::MAX
    }

    fn as_times(&self) -> (r: (u64, u64)) {
        (self.as_secs(), self.subsec_nanos() as u64)
    }

    fn parse_to_duration(s: &str) -> (r: Result<Self, ParseError>) {
        match parse_to_ns(s) {
            Ok(p) => duration_from_parts(p.0, p.1),
            Err(e) => Err(e),
        }
    }

    fn from_times(&self, s: u64, ns: u64) -> (r: Self) {
        Duration::new(s, ns as u32)
    }
}

/// A duration of type `D`, which can be formatted as text, parsed from text, filtered to some
/// units, and truncated to its most significant units.
///
/// The text is a sequence of tokens `<count><unit>`, most significant first: `y` years
/// (365 days), `m` months (30 days), `w` weeks, `d` days, `h` hours, `m` minutes, `s`
/// seconds, `ms` milliseconds, `us` microseconds and `ns` nanoseconds. An `m` means months
/// where an `h`, `d`, `w`, `y` or another `m` stands to its right, and minutes otherwise: so
/// `"5y2d30m"` is five years, two days and thirty minutes, but `"5y30m2d"` is five years,
/// thirty months and two days.
#[derive(Clone, Debug, PartialEq)]
pub struct FancyDuration<D: AsTimes + Clone>(pub D);

impl<D: AsTimes + Clone> FancyDuration<D> {
    /// Wraps a duration.
    pub fn new(d: D) -> (r: Self)
        ensures
            r.0 == d,
    {
        FancyDuration(d)
    }

    /// The wrapped duration.
    pub fn duration(&self) -> (r: D)
        ensures
            cloned(self.0, r),
    {
        self.0.clone()
    }

    /// The duration with every unit outside `filter` set to zero; the others keep their
    /// counts, and nothing is carried between units.
    pub fn filter(&self, filter: &[DurationPart]) -> (r: Self)
        ensures
            r.0.times() == filter_times(self.0.times(), filter@),
    {
        let times = self.0.as_times();
        let b = DurationBreakdown::new(times.0, times.1).filter(filter);
        proof {
            lemma_decompose_sums(times.0, times.1);
            lemma_filtered_truncated_below(decompose(times.0, times.1), filter@, 0);
            lemma_below_sums(b@, decompose(times.0, times.1));
        }
        let filtered = b.as_times();
        FancyDuration(self.0.from_times(filtered.0, filtered.1))
    }

    /// The duration cut to the `limit` consecutive units that start at its most significant
    /// nonzero unit; every less significant unit is set to zero.
    pub fn truncate(&self, limit: usize) -> (r: Self)
        ensures
            r.0.times() == truncate_times(self.0.times(), limit as int),
    {
        let times = self.0.as_times();
        let b = DurationBreakdown::new(times.0, times.1).truncate(limit);
        proof {
            lemma_decompose_sums(times.0, times.1);
            lemma_filtered_truncated_below(decompose(times.0, times.1), seq![], limit as int);
            lemma_below_sums(b@, decompose(times.0, times.1));
        }
        let truncated = b.as_times();
        FancyDuration(self.0.from_times(truncated.0, truncated.1))
    }

    /// Reads a duration from text; see [`FancyDuration`] for the tokens, and [`read_as`] for
    /// when it succeeds.
    pub fn parse(s: &str) -> (r: Result<Self, ParseError>)
        ensures
            match r {
                Ok(f) => read_as::<D>(s.spec_bytes(), Ok(f.0)),
                Err(e) => read_as::<D>(s.spec_bytes(), Err(e)),
            },
    {
        match D::parse_to_duration(s) {
            Ok(d) => Ok(FancyDuration(d)),
            Err(e) => Err(e),
        }
    }

    /// The text of the duration with its tokens separated by single spaces, such as
    /// `"3m 5s"`; `"0"` for a zero duration.
    pub fn format(&self) -> (r: String)
        ensures
            r@ == format_times(self.0.times().0, self.0.times().1, true),
    {
        self.format_internal(true)
    }

    /// The text of the duration with its tokens side by side, such as `"3m5s"`; `"0"` for a
    /// zero duration.
    pub fn format_compact(&self) -> (r: String)
        ensures
            r@ == format_times(self.0.times().0, self.0.times().1, false),
    {
        self.format_internal(false)
    }

    fn format_internal(&self, pad: bool) -> (r: String)
        ensures
            r@ == format_times(self.0.times().0, self.0.times().1, pad),
    {
        let times = self.0.as_times();
        if times.0 == 0 && times.1 == 0 {
            proof {
                reveal_strlit("0");
            }
            return String::from_str("0");
        }
        let breakdown = DurationBreakdown::new(times.0, times.1);
        format_breakdown(&breakdown, pad)
    }

    /// Reads text into `(seconds, nanoseconds)`; the nanoseconds are not carried into the
    /// seconds.
    pub fn parse_to_ns(s: &str) -> (r: Result<(u64, u64), ParseError>)
        ensures
            r == parse_times(s.spec_bytes()),
    {
        parse_to_ns(s)
    }
}

impl<D: AsTimes + Clone> core::str::FromStr for FancyDuration<D> {
    type Err = ParseError;

    fn from_str(s: &str) -> Result<Self, ParseError> {
        Self::parse(s)
    }
}

/// A duration type that can be wrapped in a [`FancyDuration`].
pub trait AsFancyDuration<T: AsTimes + Clone>: Sized {
    /// The value wrapped in a [`FancyDuration`].
    fn fancy_duration(&self) -> FancyDuration<T>;
}

/// A duration type that can be read from text.
pub trait ParseFancyDuration<T: AsTimes + Clone>: Sized {
    /// Reads a value from text; see [`FancyDuration`] for the tokens.
    fn parse_fancy_duration(s: String) -> Result<Self, ParseError>;
}

impl AsFancyDuration<Duration> for Duration {
    fn fancy_duration(&self) -> (r: FancyDuration<Duration>)
        ensures
            r.0 == *self,
    {
        FancyDuration::new(*self)
    }
}

impl ParseFancyDuration<Duration> for Duration {
    fn parse_fancy_duration(s: String) -> (r: Result<Self, ParseError>)
        ensures
            read_as::<Duration>(encode_utf8(s@), r),
    {
        match FancyDuration::<Duration>::parse(s.as_str()) {
            Ok(f) => Ok(f.0),
            Err(e) => Err(e),
        }
    }
}

} // verus!
