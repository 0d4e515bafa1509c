//! The breakdown engine: a `(seconds, nanoseconds)` pair split into ten unit counts, and the
//! filtering, truncation and recomposition of such a split.

use vstd::arithmetic::div_mod::{lemma_fundamental_div_mod, lemma_fundamental_div_mod_converse};
use vstd::prelude::*;

verus! {

/// Seconds in a minute.
pub const MINUTE: u64 = 60;

/// Seconds in an hour.
pub const HOUR: u64 = 3600;

/// Seconds in a day.
pub const DAY: u64 = 86400;

/// Seconds in a week.
pub const WEEK: u64 = 604800;

/// Seconds in a month, taken as 30 days.
pub const MONTH: u64 = 2592000;

/// Seconds in a year, taken as 365 days.
pub const YEAR: u64 = 31536000;

/// Nanoseconds in a second.
pub const NANOS_PER_SEC: u64 = 1000000000;

/// Nanoseconds in a millisecond.
pub const NANOS_PER_MILLI: u64 = 1000000;

/// Nanoseconds in a microsecond.
pub const NANOS_PER_MICRO: u64 = 1000;

/// The number of unit counts in a breakdown.
pub const NUM_PARTS: usize = 10;

/// One of the units of a breakdown, most significant first.
#[derive(Debug, Clone, Copy, PartialEq, Eq, Structural, PartialOrd, Ord)]
pub enum DurationPart {
    Years,
    Months,
    Weeks,
    Days,
    Hours,
    Minutes,
    Seconds,
    Milliseconds,
    Microseconds,
    Nanoseconds,
}

/// The unit at position `i` of a breakdown's view.
pub open spec fn part_at(i: int) -> DurationPart {
    if i == 0 {
        DurationPart::Years
    } else if i == 1 {
        DurationPart::Months
    } else if i == 2 {
        DurationPart::Weeks
    } else if i == 3 {
        DurationPart::Days
    } else if i == 4 {
        DurationPart::Hours
    } else if i == 5 {
        DurationPart::Minutes
    } else if i == 6 {
        DurationPart::Seconds
    } else if i == 7 {
        DurationPart::Milliseconds
    } else if i == 8 {
        DurationPart::Microseconds
    } else {
        DurationPart::Nanoseconds
    }
}

/// The ten unit counts of `(s, ns)`, most significant first: each unit takes as much as it can
/// of what the more significant units left over.
pub open spec fn decompose(s: u64, ns: u64) -> Seq<u64> {
    seq![
        s / YEAR,
        s % YEAR / MONTH,
        s % YEAR % MONTH / WEEK,
        s % YEAR % MONTH % WEEK / DAY,
        s % YEAR % MONTH % WEEK % DAY / HOUR,
        s % YEAR % MONTH % WEEK % DAY % HOUR / MINUTE,
        s % YEAR % MONTH % WEEK % DAY % HOUR % MINUTE,
        ns / NANOS_PER_MILLI,
        ns % NANOS_PER_MILLI / NANOS_PER_MICRO,
        ns % NANOS_PER_MICRO,
    ]
}

/// The whole seconds that the counts `v` stand for.
pub open spec fn seconds_of(v: Seq<u64>) -> int {
    v[0] * YEAR + v[1] * MONTH + v[2] * WEEK + v[3] * DAY + v[4] * HOUR + v[5] * MINUTE + v[6]
}

/// The nanoseconds that the sub-second counts of `v` stand for.
pub open spec fn nanos_of(v: Seq<u64>) -> int {
    v[7] * NANOS_PER_MILLI + v[8] * NANOS_PER_MICRO + v[9]
}

/// The counts `v` with every unit that `parts` does not hold set to zero.
pub open spec fn filtered(v: Seq<u64>, parts: Seq<DurationPart>) -> Seq<u64> {
    Seq::new(v.len(), |i: int| if parts.contains(part_at(i)) { v[i] } else { 0 })
}

/// The position of the first nonzero count of `v` at or after `i`, or `v.len()` where there
/// is none.
pub open spec fn lead_from(v: Seq<u64>, i: int) -> int
    decreases v.len() - i,
{
    if i >= v.len() {
        v.len() as int
    } else if v[i] != 0 {
        i
    } else {
        lead_from(v, i + 1)
    }
}

/// The position of the first nonzero count of `v`, or `v.len()` where all are zero.
pub open spec fn lead(v: Seq<u64>) -> int {
    lead_from(v, 0)
}

/// The counts `v` cut to the `k` consecutive units that start at the first nonzero one: every
/// later unit is set to zero.
pub open spec fn truncated(v: Seq<u64>, k: int) -> Seq<u64> {
    Seq::new(v.len(), |i: int| if i < lead(v) + k { v[i] } else { 0 })
}

/// The unit counts that a breakdown stands for fit the `(u64, u64)` pair.
pub open spec fn fits_times(v: Seq<u64>) -> bool {
    seconds_of(v) <= u64::MAX && nanos_of(v) <= u64::MAX
}

/// Whether `parts` holds `p`.
pub fn contains_part(parts: &[DurationPart], p: DurationPart) -> (r: bool)
    ensures
        r == parts@.contains(p),
{
    let mut i: usize = 0;
    while i < parts.len()
        invariant
            i <= parts@.len(),
            forall|j: int| 0 <= j < i ==> parts@[j] != p,
        decreases parts@.len() - i,
    {
        if parts[i] == p {
            assert(parts@[i as int] == p);
            return true;
        }
        i = i + 1;
    }
    false
}

/// Every count of `w` is at most the matching count of `v`.
pub open spec fn below(w: Seq<u64>, v: Seq<u64>) -> bool {
    w.len() == v.len() && forall|i: int| 0 <= i < v.len() ==> w[i] <= v[i]
}

/// The counts of `(s, ns)` add back up to `s` seconds and `ns` nanoseconds.
pub proof fn lemma_decompose_sums(s: u64, ns: u64)
    ensures
        seconds_of(decompose(s, ns)) == s,
        nanos_of(decompose(s, ns)) == ns,
{
    let r0 = s % YEAR;
    let r1 = r0 % MONTH;
    let r2 = r1 % WEEK;
    let r3 = r2 % DAY;
    let r4 = r3 % HOUR;
    lemma_fundamental_div_mod(s as int, YEAR as int);
    lemma_fundamental_div_mod(r0 as int, MONTH as int);
    lemma_fundamental_div_mod(r1 as int, WEEK as int);
    lemma_fundamental_div_mod(r2 as int, DAY as int);
    lemma_fundamental_div_mod(r3 as int, HOUR as int);
    lemma_fundamental_div_mod(r4 as int, MINUTE as int);
    lemma_fundamental_div_mod(ns as int, NANOS_PER_MILLI as int);
    lemma_fundamental_div_mod((ns % NANOS_PER_MILLI) as int, NANOS_PER_MICRO as int);
}

/// Lowering a count lowers what it stands for, unit by unit.
proof fn lemma_below_terms(w: Seq<u64>, v: Seq<u64>)
    requires
        v.len() == NUM_PARTS,
        below(w, v),
    ensures
        w[0] * YEAR <= v[0] * YEAR,
        w[1] * MONTH <= v[1] * MONTH,
        w[2] * WEEK <= v[2] * WEEK,
        w[3] * DAY <= v[3] * DAY,
        w[4] * HOUR <= v[4] * HOUR,
        w[5] * MINUTE <= v[5] * MINUTE,
        w[7] * NANOS_PER_MILLI <= v[7] * NANOS_PER_MILLI,
        w[8] * NANOS_PER_MICRO <= v[8] * NANOS_PER_MICRO,
{
    assert(w[0] * YEAR <= v[0] * YEAR) by (nonlinear_arith)
        requires
            w[0] <= v[0],
    ;
    assert(w[1] * MONTH <= v[1] * MONTH) by (nonlinear_arith)
        requires
            w[1] <= v[1],
    ;
    assert(w[2] * WEEK <= v[2] * WEEK) by (nonlinear_arith)
        requires
            w[2] <= v[2],
    ;
    assert(w[3] * DAY <= v[3] * DAY) by (nonlinear_arith)
        requires
            w[3] <= v[3],
    ;
    assert(w[4] * HOUR <= v[4] * HOUR) by (nonlinear_arith)
        requires
            w[4] <= v[4],
    ;
    assert(w[5] * MINUTE <= v[5] * MINUTE) by (nonlinear_arith)
        requires
            w[5] <= v[5],
    ;
    assert(w[7] * NANOS_PER_MILLI <= v[7] * NANOS_PER_MILLI) by (nonlinear_arith)
        requires
            w[7] <= v[7],
    ;
    assert(w[8] * NANOS_PER_MICRO <= v[8] * NANOS_PER_MICRO) by (nonlinear_arith)
        requires
            w[8] <= v[8],
    ;
}

/// Lowering counts lowers the seconds and nanoseconds they stand for.
pub proof fn lemma_below_sums(w: Seq<u64>, v: Seq<u64>)
    requires
        v.len() == NUM_PARTS,
        below(w, v),
    ensures
        seconds_of(w) <= seconds_of(v),
        nanos_of(w) <= nanos_of(v),
{
    lemma_below_terms(w, v);
}

/// The counts are those of a decomposition: each unit holds less than the next more
/// significant unit would take.
pub open spec fn is_normal(v: Seq<u64>) -> bool {
    &&& v.len() == NUM_PARTS
    &&& v[6] < MINUTE
    &&& v[5] * MINUTE + v[6] < HOUR
    &&& v[4] * HOUR + v[5] * MINUTE + v[6] < DAY
    &&& v[3] * DAY + v[4] * HOUR + v[5] * MINUTE + v[6] < WEEK
    &&& v[2] * WEEK + v[3] * DAY + v[4] * HOUR + v[5] * MINUTE + v[6] < MONTH
    &&& v[1] * MONTH + v[2] * WEEK + v[3] * DAY + v[4] * HOUR + v[5] * MINUTE + v[6] < YEAR
    &&& v[9] < NANOS_PER_MICRO
    &&& v[8] < 1000
    &&& v[7] < 1000
}

/// A decomposition of a pair whose nanoseconds are below one second is normal.
pub proof fn lemma_decompose_normal(s: u64, ns: u64)
    requires
        ns < NANOS_PER_SEC,
    ensures
        is_normal(decompose(s, ns)),
{
    let r0 = s % YEAR;
    let r1 = r0 % MONTH;
    let r2 = r1 % WEEK;
    let r3 = r2 % DAY;
    let r4 = r3 % HOUR;
    lemma_fundamental_div_mod(r0 as int, MONTH as int);
    lemma_fundamental_div_mod(r1 as int, WEEK as int);
    lemma_fundamental_div_mod(r2 as int, DAY as int);
    lemma_fundamental_div_mod(r3 as int, HOUR as int);
    lemma_fundamental_div_mod(r4 as int, MINUTE as int);
}

/// Lowering the counts of a normal breakdown leaves it normal.
pub proof fn lemma_below_normal(w: Seq<u64>, v: Seq<u64>)
    requires
        is_normal(v),
        below(w, v),
    ensures
        is_normal(w),
{
    lemma_below_terms(w, v);
}

/// A normal breakdown is the decomposition of the pair it stands for.
pub proof fn lemma_recompose_normal(w: Seq<u64>)
    requires
        is_normal(w),
        seconds_of(w) <= u64::MAX,
    ensures
        nanos_of(w) < NANOS_PER_SEC,
        decompose(seconds_of(w) as u64, nanos_of(w) as u64) =~= w,
{
    let s = seconds_of(w);
    let r0 = s - w[0] * YEAR;
    let r1 = r0 - w[1] * MONTH;
    let r2 = r1 - w[2] * WEEK;
    let r3 = r2 - w[3] * DAY;
    let r4 = r3 - w[4] * HOUR;
    lemma_fundamental_div_mod_converse(s, YEAR as int, w[0] as int, r0);
    lemma_fundamental_div_mod_converse(r0, MONTH as int, w[1] as int, r1);
    lemma_fundamental_div_mod_converse(r1, WEEK as int, w[2] as int, r2);
    lemma_fundamental_div_mod_converse(r2, DAY as int, w[3] as int, r3);
    lemma_fundamental_div_mod_converse(r3, HOUR as int, w[4] as int, r4);
    lemma_fundamental_div_mod_converse(r4, MINUTE as int, w[5] as int, w[6] as int);
    let n = nanos_of(w);
    let m0 = n - w[7] * NANOS_PER_MILLI;
    assert(w[7] * NANOS_PER_MILLI <= 999 * NANOS_PER_MILLI) by (nonlinear_arith)
        requires
            w[7] < 1000,
    ;
    assert(w[8] * NANOS_PER_MICRO <= 999 * NANOS_PER_MICRO) by (nonlinear_arith)
        requires
            w[8] < 1000,
    ;
    lemma_fundamental_div_mod_converse(n, NANOS_PER_MILLI as int, w[7] as int, m0);
    lemma_fundamental_div_mod_converse(m0, NANOS_PER_MICRO as int, w[8] as int, w[9] as int);
}

/// One past the position of the last nonzero count among the first `n` of `v`, or 0 where
/// they are all zero.
pub open spec fn trail_upto(v: Seq<u64>, n: int) -> int
    decreases n,
{
    if n <= 0 {
        0
    } else if v[n - 1] != 0 {
        n
    } else {
        trail_upto(v, n - 1)
    }
}

/// One past the position of the last nonzero count of `v`, or 0 where all are zero.
pub open spec fn trail(v: Seq<u64>) -> int {
    trail_upto(v, v.len() as int)
}

/// How many consecutive units a truncation must keep to keep every nonzero count of `v`.
pub open spec fn span(v: Seq<u64>) -> int {
    if lead(v) < trail(v) {
        trail(v) - lead(v)
    } else {
        0
    }
}

/// `trail_upto(v, n)` is one past the last nonzero position below `n`.
pub proof fn lemma_trail_upto(v: Seq<u64>, n: int)
    requires
        0 <= n <= v.len(),
    ensures
        0 <= trail_upto(v, n) <= n,
        trail_upto(v, n) > 0 ==> v[trail_upto(v, n) - 1] != 0,
        forall|j: int| trail_upto(v, n) <= j < n ==> v[j] == 0,
    decreases n,
{
    if n > 0 && v[n - 1] == 0 {
        lemma_trail_upto(v, n - 1);
    }
}

/// `lead(v)` is the first nonzero position of `v`.
pub proof fn lemma_lead(v: Seq<u64>)
    ensures
        0 <= lead(v) <= v.len(),
        lead(v) < v.len() ==> v[lead(v)] != 0,
        forall|j: int| 0 <= j < lead(v) ==> v[j] == 0,
{
    lemma_lead_from(v, 0);
}

/// Filtering and truncating only lower counts.
pub proof fn lemma_filtered_truncated_below(v: Seq<u64>, parts: Seq<DurationPart>, k: int)
    ensures
        below(filtered(v, parts), v),
        below(truncated(v, k), v),
{
}

/// A duration split into unit counts.
#[derive(Debug, Clone, Copy)]
pub struct DurationBreakdown {
    pub years: u64,
    pub months: u64,
    pub weeks: u64,
    pub days: u64,
    pub hours: u64,
    pub minutes: u64,
    pub seconds: u64,
    pub milliseconds: u64,
    pub microseconds: u64,
    pub nanoseconds: u64,
}

impl View for DurationBreakdown {
    type V = Seq<u64>;

    open spec fn view(&self) -> Seq<u64> {
        seq![
            self.years,
            self.months,
            self.weeks,
            self.days,
            self.hours,
            self.minutes,
            self.seconds,
            self.milliseconds,
            self.microseconds,
            self.nanoseconds,
        ]
    }
}

impl DurationBreakdown {
    /// Splits `s` seconds and `ns` nanoseconds into unit counts.
    pub fn new(s: u64, ns: u64) -> (r: Self)
        ensures
            r@ == decompose(s, ns),
    {
        let years = s / YEAR;
        let rest = s % YEAR;
        let months = rest / MONTH;
        let rest = rest % MONTH;
        let weeks = rest / WEEK;
        let rest = rest % WEEK;
        let days = rest / DAY;
        let rest = rest % DAY;
        let hours = rest / HOUR;
        let rest = rest % HOUR;
        let minutes = rest / MINUTE;
        let rest = rest % MINUTE;

        let milliseconds = ns / NANOS_PER_MILLI;
        let sub = ns % NANOS_PER_MILLI;
        let microseconds = sub / NANOS_PER_MICRO;
        let sub = sub % NANOS_PER_MICRO;

        let r = DurationBreakdown {
            years,
            months,
            weeks,
            days,
            hours,
            minutes,
            seconds: rest,
            milliseconds,
            microseconds,
            nanoseconds: sub,
        };
        assert(r@ =~= decompose(s, ns));
        r
    }

    /// The count at position `i` of the view.
    pub fn get(&self, i: usize) -> (r: u64)
        requires
            i < NUM_PARTS,
        ensures
            r == self@[i as int],
    {
        match i {
            0 => self.years,
            1 => self.months,
            2 => self.weeks,
            3 => self.days,
            4 => self.hours,
            5 => self.minutes,
            6 => self.seconds,
            7 => self.milliseconds,
            8 => self.microseconds,
            _ => self.nanoseconds,
        }
    }

    /// Sets the count at position `i` of the view to zero.
    fn clear(&mut self, i: usize)
        requires
            i < NUM_PARTS,
        ensures
            final(self)@ == old(self)@.update(i as int, 0u64),
    {
        match i {
            0 => self.years = 0,
            1 => self.months = 0,
            2 => self.weeks = 0,
            3 => self.days = 0,
            4 => self.hours = 0,
            5 => self.minutes = 0,
            6 => self.seconds = 0,
            7 => self.milliseconds = 0,
            8 => self.microseconds = 0,
            _ => self.nanoseconds = 0,
        }
        assert(final(self)@ =~= old(self)@.update(i as int, 0u64));
    }

    /// Keeps the `limit` consecutive units that start at the first nonzero one, and sets every
    /// later unit to zero.
    pub fn truncate(&self, limit: usize) -> (r: Self)
        ensures
            r@ == truncated(self@, limit as int),
    {
        let mut obj = *self;
        let mut limit = limit;
        let mut limit_started = false;
        let ghost v = self@;
        let ghost k = limit as int;
        proof {
            lemma_lead_from(v, 0);
        }
        let mut i: usize = 0;
        while i < NUM_PARTS
            invariant
                v == self@,
                v.len() == NUM_PARTS,
                i <= NUM_PARTS,
                obj@.len() == NUM_PARTS,
                limit_started == (lead(v) < i),
                limit_started ==> limit as int == if k > i - lead(v) { k - (i - lead(v)) } else { 0 },
                !limit_started ==> limit as int == k,
                forall|j: int| 0 <= j < i ==> obj@[j] == truncated(v, k)[j],
                forall|j: int| i <= j < NUM_PARTS ==> obj@[j] == v[j],
            decreases NUM_PARTS - i,
        {
            proof {
                lemma_lead_step(v, i as int);
            }
            if limit_started || obj.get(i) > 0 {
                limit_started = true;
                if limit == 0 {
                    obj.clear(i);
                }
                if limit != 0 {
                    limit = limit - 1;
                }
            }
            i = i + 1;
        }
        assert(obj@ =~= truncated(v, k));
        obj
    }

    /// Sets every unit that `filter` does not hold to zero; the others keep their counts.
    pub fn filter(&self, filter: &[DurationPart]) -> (r: Self)
        ensures
            r@ == filtered(self@, filter@),
    {
        let mut obj = *self;
        if !contains_part(filter, DurationPart::Years) {
            obj.years = 0;
        }
        if !contains_part(filter, DurationPart::Months) {
            obj.months = 0;
        }
        if !contains_part(filter, DurationPart::Weeks) {
            obj.weeks = 0;
        }
        if !contains_part(filter, DurationPart::Days) {
            obj.days = 0;
        }
        if !contains_part(filter, DurationPart::Hours) {
            obj.hours = 0;
        }
        if !contains_part(filter, DurationPart::Minutes) {
            obj.minutes = 0;
        }
        if !contains_part(filter, DurationPart::Seconds) {
            obj.seconds = 0;
        }
        if !contains_part(filter, DurationPart::Milliseconds) {
            obj.milliseconds = 0;
        }
        if !contains_part(filter, DurationPart::Microseconds) {
            obj.microseconds = 0;
        }
        if !contains_part(filter, DurationPart::Nanoseconds) {
            obj.nanoseconds = 0;
        }
        assert(obj@ =~= filtered(self@, filter@));
        obj
    }

    /// The `(seconds, nanoseconds)` pair that the counts stand for.
    pub fn as_times(&self) -> (r: (u64, u64))
        requires
            fits_times(self@),
        ensures
            r.0 == seconds_of(self@),
            r.1 == nanos_of(self@),
    {
        let s = self.years * YEAR + self.months * MONTH + self.weeks * WEEK + self.days * DAY
            + self.hours * HOUR + self.minutes * MINUTE + self.seconds;
        let ns = self.milliseconds * NANOS_PER_MILLI + self.microseconds * NANOS_PER_MICRO
            + self.nanoseconds;
        (s, ns)
    }
}

/// How `lead` relates to a step from position `i` to `i + 1`.
proof fn lemma_lead_step(v: Seq<u64>, i: int)
    requires
        0 <= i < v.len(),
    ensures
        lead(v) < i + 1 <==> (lead(v) < i || v[i] != 0),
        lead(v) <= v.len(),
        lead(v) < v.len() ==> v[lead(v)] != 0,
        forall|j: int| 0 <= j < lead(v) ==> v[j] == 0,
{
    lemma_lead_from(v, 0);
}

/// `lead_from(v, i)` is the first nonzero position at or after `i`.
proof fn lemma_lead_from(v: Seq<u64>, i: int)
    requires
        0 <= i <= v.len(),
    ensures
        i <= lead_from(v, i) <= v.len(),
        lead_from(v, i) < v.len() ==> v[lead_from(v, i)] != 0,
        forall|j: int| i <= j < lead_from(v, i) ==> v[j] == 0,
    decreases v.len() - i,
{
    if i < v.len() && v[i] == 0 {
        lemma_lead_from(v, i + 1);
    }
}

} // verus!
