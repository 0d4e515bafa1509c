//! The text codec: unit counts rendered as `"1h 20m 30s"` (padded) or `"1h20m30s"`
//! (compact), and such text read back into a `(seconds, nanoseconds)` pair.

use vstd::prelude::*;
use vstd::string::StringSliceAdditionalSpecFns;

use crate::breakdown::{
    decompose, DurationBreakdown, DAY, HOUR, MINUTE, MONTH, NANOS_PER_MICRO, NANOS_PER_MILLI,
    NUM_PARTS, WEEK, YEAR,
};

verus! {

/// The decimal digit character for `d < 10`.
pub open spec fn digit_char(d: nat) -> char {
    seq!['0', '1', '2', '3', '4', '5', '6', '7', '8', '9'][d as int]
}

/// The decimal digits of `n`, without leading zeros.
pub open spec fn decimal(n: nat) -> Seq<char>
    decreases n,
{
    if n < 10 {
        seq![digit_char(n)]
    } else {
        decimal(n / 10) + seq![digit_char(n % 10)]
    }
}

/// The suffix written after the count at position `i` of a breakdown. Months and minutes
/// share `m`.
pub open spec fn suffix(i: int) -> Seq<char> {
    if i == 0 {
        seq!['y']
    } else if i == 1 {
        seq!['m']
    } else if i == 2 {
        seq!['w']
    } else if i == 3 {
        seq!['d']
    } else if i == 4 {
        seq!['h']
    } else if i == 5 {
        seq!['m']
    } else if i == 6 {
        seq!['s']
    } else if i == 7 {
        seq!['m', 's']
    } else if i == 8 {
        seq!['u', 's']
    } else {
        seq!['n', 's']
    }
}

/// The token for the count at position `i` of `v`: its digits, then its suffix.
pub open spec fn piece(v: Seq<u64>, i: int) -> Seq<char> {
    decimal(v[i] as nat) + suffix(i)
}

/// The tokens of the nonzero counts among the first `n` of `v`, in order, separated by one
/// space when `pad` holds and by nothing otherwise.
pub open spec fn rendered(v: Seq<u64>, n: int, pad: bool) -> Seq<char>
    decreases n,
{
    if n <= 0 {
        Seq::empty()
    } else {
        let prev = rendered(v, n - 1, pad);
        if v[n - 1] == 0 {
            prev
        } else if pad && prev.len() > 0 {
            prev + seq![' '] + piece(v, n - 1)
        } else {
            prev + piece(v, n - 1)
        }
    }
}

/// The text of `s` seconds and `ns` nanoseconds: `"0"` for a zero duration, else the tokens
/// of its nonzero unit counts.
pub open spec fn format_times(s: u64, ns: u64, pad: bool) -> Seq<char> {
    if s == 0 && ns == 0 {
        seq!['0']
    } else {
        rendered(decompose(s, ns), NUM_PARTS as int, pad)
    }
}

/// The one-character text of the digit `d`.
fn digit_str(d: u64) -> (r: &'static str)
    requires
        d < 10,
    ensures
        r@ == seq![digit_char(d as nat)],
{
    proof {
        reveal_strlit("0");
        reveal_strlit("1");
        reveal_strlit("2");
        reveal_strlit("3");
        reveal_strlit("4");
        reveal_strlit("5");
        reveal_strlit("6");
        reveal_strlit("7");
        reveal_strlit("8");
        reveal_strlit("9");
    }
    match d {
        0 => "0",
        1 => "1",
        2 => "2",
        3 => "3",
        4 => "4",
        5 => "5",
        6 => "6",
        7 => "7",
        8 => "8",
        _ => "9",
    }
}

/// Appends the decimal digits of `n` to `out`.
fn push_decimal(out: &mut String, n: u64)
    ensures
        final(out)@ == old(out)@ + decimal(n as nat),
    decreases n,
{
    if n >= 10 {
        push_decimal(out, n / 10);
    }
    out.append(digit_str(n % 10));
    proof {
        if n >= 10 {
            assert(old(out)@ + decimal((n / 10) as nat) + seq![digit_char((n % 10) as nat)]
                =~= old(out)@ + decimal(n as nat));
        }
    }
}

/// The suffix of the count at position `i` of a breakdown.
fn suffix_str(i: usize) -> (r: &'static str)
    requires
        i < NUM_PARTS,
    ensures
        r@ == suffix(i as int),
{
    proof {
        reveal_strlit("y");
        reveal_strlit("m");
        reveal_strlit("w");
        reveal_strlit("d");
        reveal_strlit("h");
        reveal_strlit("s");
        reveal_strlit("ms");
        reveal_strlit("us");
        reveal_strlit("ns");
    }
    match i {
        0 => "y",
        1 => "m",
        2 => "w",
        3 => "d",
        4 => "h",
        5 => "m",
        6 => "s",
        7 => "ms",
        8 => "us",
        _ => "ns",
    }
}

/// Renders the nonzero counts of `b` as tokens, space-separated when `pad` holds.
pub fn format_breakdown(b: &DurationBreakdown, pad: bool) -> (r: String)
    ensures
        r@ == rendered(b@, NUM_PARTS as int, pad),
{
    let mut s = String::new();
    let mut empty = true;
    let mut i: usize = 0;
    while i < NUM_PARTS
        invariant
            i <= NUM_PARTS,
            b@.len() == NUM_PARTS,
            s@ == rendered(b@, i as int, pad),
            empty == (s@.len() == 0),
        decreases NUM_PARTS - i,
    {
        let val = b.get(i);
        let ghost prev = s@;
        if val > 0 {
            if pad && !empty {
                proof {
                    reveal_strlit(" ");
                }
                s.append(" ");
            }
            let ghost sep = s@;
            push_decimal(&mut s, val);
            s.append(suffix_str(i));
            assert(s@ =~= sep + piece(b@, i as int));
            empty = false;
        }
        i = i + 1;
    }
    s
}

/// The byte of the ASCII letter `s`.
pub const ASCII_S: u8 = 115;

/// The byte of the ASCII letter `m`.
pub const ASCII_M: u8 = 109;

/// The byte of the ASCII letter `h`.
pub const ASCII_H: u8 = 104;

/// The byte of the ASCII letter `d`.
pub const ASCII_D: u8 = 100;

/// The byte of the ASCII letter `w`.
pub const ASCII_W: u8 = 119;

/// The byte of the ASCII letter `y`.
pub const ASCII_Y: u8 = 121;

/// The byte of the ASCII letter `n`.
pub const ASCII_N: u8 = 110;

/// The byte of the ASCII letter `u`.
pub const ASCII_U: u8 = 117;

/// Why a text could not be read as a duration.
#[derive(Debug, Clone, Copy, PartialEq, Eq, Structural)]
pub enum ParseError {
    /// The digits of a token with a known suffix do not fit a `u64`.
    InvalidNumber,
    /// The seconds or nanoseconds that the tokens add up to do not fit the duration.
    OutOfRange,
}

/// The meaning of a token's suffix.
#[derive(Debug, Clone, Copy, PartialEq, Eq, Structural)]
pub enum Unit {
    Nanoseconds,
    Microseconds,
    Milliseconds,
    Seconds,
    /// `m`: minutes, or months where a coarser unit stands to its right.
    MinutesOrMonths,
    Hours,
    Days,
    Weeks,
    Years,
}

/// An ASCII decimal digit.
pub open spec fn is_digit(c: u8) -> bool {
    48 <= c <= 57
}

/// An ASCII letter.
pub open spec fn is_letter(c: u8) -> bool {
    (65 <= c <= 90) || (97 <= c <= 122)
}

/// How many digits follow one another in `b` from position `i` on.
pub open spec fn digits_len(b: Seq<u8>, i: int) -> nat
    decreases b.len() - i,
{
    if 0 <= i < b.len() && is_digit(b[i]) {
        1 + digits_len(b, i + 1)
    } else {
        0
    }
}

/// The number written by the decimal digits `d`.
pub open spec fn digits_value(d: Seq<u8>) -> nat
    decreases d.len(),
{
    if d.len() == 0 {
        0
    } else {
        digits_value(d.drop_last()) * 10 + (d.last() - 48) as nat
    }
}

/// One token of a text: a run of digits and the one or two letters after it.
pub struct Token {
    pub value: nat,
    pub suffix: Seq<u8>,
}

/// The tokens of `b` from position `i` on, left to right: each is a maximal run of digits
/// followed by one or two letters (two where there are two). A run of digits with no letter
/// after it, and every other byte, is skipped.
pub open spec fn tokens_from(b: Seq<u8>, i: int) -> Seq<Token>
    decreases b.len() - i,
{
    if i < 0 || i >= b.len() {
        Seq::empty()
    } else if !is_digit(b[i]) {
        tokens_from(b, i + 1)
    } else {
        let j = i + 1 + digits_len(b, i + 1);
        if j >= b.len() {
            Seq::empty()
        } else if is_letter(b[j]) {
            let k = if j + 1 < b.len() && is_letter(b[j + 1]) {
                j + 2
            } else {
                j + 1
            };
            seq![Token { value: digits_value(b.subrange(i, j)), suffix: b.subrange(j, k) }]
                + tokens_from(b, k)
        } else {
            tokens_from(b, j)
        }
    }
}

/// The tokens of `b`.
pub open spec fn tokens(b: Seq<u8>) -> Seq<Token> {
    tokens_from(b, 0)
}

/// The unit that a suffix names, if any.
pub open spec fn unit_of(s: Seq<u8>) -> Option<Unit> {
    if s.len() == 1 {
        if s[0] == ASCII_S {
            Some(Unit::Seconds)
        } else if s[0] == ASCII_M {
            Some(Unit::MinutesOrMonths)
        } else if s[0] == ASCII_H {
            Some(Unit::Hours)
        } else if s[0] == ASCII_D {
            Some(Unit::Days)
        } else if s[0] == ASCII_W {
            Some(Unit::Weeks)
        } else if s[0] == ASCII_Y {
            Some(Unit::Years)
        } else {
            None
        }
    } else if s.len() == 2 && s[1] == ASCII_S {
        if s[0] == ASCII_N {
            Some(Unit::Nanoseconds)
        } else if s[0] == ASCII_U {
            Some(Unit::Microseconds)
        } else if s[0] == ASCII_M {
            Some(Unit::Milliseconds)
        } else {
            None
        }
    } else {
        None
    }
}

/// What the reading state `(seconds, nanoseconds, past_minutes)` becomes once `v` of unit `u`
/// is added. An `m` counts months once a coarser unit (or minutes) has been read, and minutes
/// before that.
pub open spec fn add_unit(st: (int, int, bool), u: Unit, v: int) -> (int, int, bool) {
    let (secs, sub, past) = st;
    match u {
        Unit::Nanoseconds => (secs, sub + v, past),
        Unit::Microseconds => (secs, sub + v * NANOS_PER_MICRO, past),
        Unit::Milliseconds => (secs, sub + v * NANOS_PER_MILLI, past),
        Unit::Seconds => (secs + v, sub, past),
        Unit::MinutesOrMonths => if past {
            (secs + v * MONTH, sub, true)
        } else {
            (secs + v * MINUTE, sub, true)
        },
        Unit::Hours => (secs + v * HOUR, sub, true),
        Unit::Days => (secs + v * DAY, sub, true),
        Unit::Weeks => (secs + v * WEEK, sub, true),
        Unit::Years => (secs + v * YEAR, sub, true),
    }
}

/// The reading state after the token `t`, or the error it raises. A token with an unknown
/// suffix changes nothing.
pub open spec fn step(st: (int, int, bool), t: Token) -> Result<(int, int, bool), ParseError> {
    match unit_of(t.suffix) {
        None => Ok(st),
        Some(u) => if t.value > u64::MAX {
            Err(ParseError::InvalidNumber)
        } else {
            let next = add_unit(st, u, t.value as int);
            if next.0 > u64::MAX || next.1 > u64::MAX {
                Err(ParseError::OutOfRange)
            } else {
                Ok(next)
            }
        },
    }
}

/// The reading state after the tokens `toks[i..]`, read right to left from
/// `(0, 0, false)`, stopping at the first error.
pub open spec fn run(toks: Seq<Token>, i: int) -> Result<(int, int, bool), ParseError>
    decreases toks.len() - i,
{
    if i < 0 || i >= toks.len() {
        Ok((0, 0, false))
    } else {
        match run(toks, i + 1) {
            Err(e) => Err(e),
            Ok(st) => step(st, toks[i]),
        }
    }
}

/// The `(seconds, nanoseconds)` that the text with bytes `b` stands for.
pub open spec fn parse_times(b: Seq<u8>) -> Result<(u64, u64), ParseError> {
    match run(tokens(b), 0) {
        Ok(st) => Ok((st.0 as u64, st.1 as u64)),
        Err(e) => Err(e),
    }
}

/// A token as the reader holds it: its value where that fits a `u64`, and where its suffix
/// stands in the text.
struct Lexeme {
    value: Option<u64>,
    suffix_start: usize,
    suffix_end: usize,
}

/// `l` holds the token `t` of the text `b`.
spec fn lexeme_of(l: Lexeme, t: Token, b: Seq<u8>) -> bool {
    &&& l.suffix_start <= l.suffix_end <= b.len()
    &&& 1 <= l.suffix_end - l.suffix_start <= 2
    &&& b.subrange(l.suffix_start as int, l.suffix_end as int) == t.suffix
    &&& (t.value <= u64::MAX ==> l.value == Some(t.value as u64))
    &&& (t.value > u64::MAX ==> l.value is None)
}

/// `digits_len` counts exactly the digits from `i` to `j`.
pub proof fn lemma_digits_len(b: Seq<u8>, i: int, j: int)
    requires
        0 <= i <= j <= b.len(),
        forall|x: int| i <= x < j ==> is_digit(b[x]),
        j == b.len() || !is_digit(b[j]),
    ensures
        digits_len(b, i) == j - i,
    decreases j - i,
{
    if i < j {
        lemma_digits_len(b, i + 1, j);
    }
}

/// The tokens of `b`, left to right.
fn lex(b: &[u8]) -> (r: Vec<Lexeme>)
    ensures
        r@.len() == tokens(b@).len(),
        forall|k: int| 0 <= k < r@.len() ==> lexeme_of(#[trigger] r@[k], tokens(b@)[k], b@),
{
    let mut out: Vec<Lexeme> = Vec::new();
    let ghost mut done: Seq<Token> = Seq::empty();
    let n = b.len();
    let mut i: usize = 0;
    while i < n
        invariant
            n == b@.len(),
            i <= n,
            tokens(b@) == done + tokens_from(b@, i as int),
            out@.len() == done.len(),
            forall|k: int| 0 <= k < out@.len() ==> lexeme_of(#[trigger] out@[k], done[k], b@),
        decreases n - i,
    {
        if b[i] < 48 || b[i] > 57 {
            i = i + 1;
        } else {
            let start = i;
            let mut j: usize = i;
            let mut value: Option<u64> = Some(0);
            while j < n && b[j] >= 48 && b[j] <= 57
                invariant
                    n == b@.len(),
                    start <= j <= n,
                    forall|x: int| start <= x < j ==> is_digit(b@[x]),
                    digits_value(b@.subrange(start as int, j as int)) <= u64::MAX ==> value
                        == Some(digits_value(b@.subrange(start as int, j as int)) as u64),
                    digits_value(b@.subrange(start as int, j as int)) > u64::MAX ==> value is None,
                decreases n - j,
            {
                let d = (b[j] - 48) as u64;
                let ghost before = b@.subrange(start as int, j as int);
                assert(b@.subrange(start as int, j + 1).drop_last() =~= before);
                value = match value {
                    Some(v) => match v.checked_mul(10) {
                        Some(w) => w.checked_add(d),
                        None => None,
                    },
                    None => None,
                };
                j = j + 1;
            }
            proof {
                lemma_digits_len(b@, start as int, j as int);
            }
            if j < n && ((b[j] >= 65 && b[j] <= 90) || (b[j] >= 97 && b[j] <= 122)) {
                let k: usize = if j + 1 < n && ((b[j + 1] >= 65 && b[j + 1] <= 90) || (b[j
                    + 1] >= 97 && b[j + 1] <= 122)) {
                    j + 2
                } else {
                    j + 1
                };
                let ghost t = Token {
                    value: digits_value(b@.subrange(start as int, j as int)),
                    suffix: b@.subrange(j as int, k as int),
                };
                out.push(Lexeme { value, suffix_start: j, suffix_end: k });
                proof {
                    assert(done.push(t) + tokens_from(b@, k as int) =~= done + (seq![t]
                        + tokens_from(b@, k as int)));
                    done = done.push(t);
                }
                i = k;
            } else {
                i = j;
            }
        }
    }
    proof {
        assert(done =~= tokens(b@));
    }
    out
}

/// The unit named by the suffix `b[a..e]`.
fn unit_at(b: &[u8], a: usize, e: usize) -> (r: Option<Unit>)
    requires
        a <= e <= b@.len(),
        1 <= e - a <= 2,
    ensures
        r == unit_of(b@.subrange(a as int, e as int)),
{
    let c = b[a];
    if e - a == 1 {
        if c == ASCII_S {
            Some(Unit::Seconds)
        } else if c == ASCII_M {
            Some(Unit::MinutesOrMonths)
        } else if c == ASCII_H {
            Some(Unit::Hours)
        } else if c == ASCII_D {
            Some(Unit::Days)
        } else if c == ASCII_W {
            Some(Unit::Weeks)
        } else if c == ASCII_Y {
            Some(Unit::Years)
        } else {
            None
        }
    } else if b[a + 1] == ASCII_S {
        if c == ASCII_N {
            Some(Unit::Nanoseconds)
        } else if c == ASCII_U {
            Some(Unit::Microseconds)
        } else if c == ASCII_M {
            Some(Unit::Milliseconds)
        } else {
            None
        }
    } else {
        None
    }
}

/// An error at position `i` of the right-to-left reading is the result of the whole reading.
proof fn lemma_run_error(toks: Seq<Token>, i: int)
    requires
        0 <= i <= toks.len(),
        run(toks, i) is Err,
    ensures
        run(toks, 0) == run(toks, i),
    decreases i,
{
    if i > 0 {
        lemma_run_error(toks, i - 1);
    }
}

/// `v * unit`, or `None` where it does not fit a `u64`.
fn scaled(v: u64, unit: u64) -> (r: Option<u64>)
    ensures
        v * unit <= u64::MAX ==> r == Some((v * unit) as u64),
        v * unit > u64::MAX ==> r is None,
{
    v.checked_mul(unit)
}

/// `a + b`, or `None` where it does not fit a `u64`.
fn added(a: u64, b: Option<u64>) -> (r: Option<u64>)
    ensures
        b is Some && a + b->0 <= u64::MAX ==> r == Some((a + b->0) as u64),
        b is None || a + b->0 > u64::MAX ==> r is None,
{
    match b {
        Some(x) => a.checked_add(x),
        None => None,
    }
}

/// Reads `s` into a `(seconds, nanoseconds)` pair: the tokens are taken right to left, each
/// adding its count of its unit, tokens with an unknown suffix and all other text being
/// skipped. The nanoseconds are not carried into the seconds.
pub fn parse_to_ns(s: &str) -> (r: Result<(u64, u64), ParseError>)
    ensures
        r == parse_times(s.spec_bytes()),
{
    let b = s.as_bytes();
    let toks = lex(b);
    let ghost ts = tokens(b@);
    let mut secs: u64 = 0;
    let mut sub: u64 = 0;
    let mut past_minutes = false;
    let mut k: usize = toks.len();
    while k > 0
        invariant
            k <= toks@.len(),
            toks@.len() == ts.len(),
            ts == tokens(b@),
            b@ == s.spec_bytes(),
            forall|x: int| 0 <= x < toks@.len() ==> lexeme_of(#[trigger] toks@[x], ts[x], b@),
            run(ts, k as int) == Ok::<(int, int, bool), ParseError>(
                (secs as int, sub as int, past_minutes),
            ),
        decreases k,
    {
        k = k - 1;
        let lx = &toks[k];
        assert(lexeme_of(toks@[k as int], ts[k as int], b@));
        match unit_at(b, lx.suffix_start, lx.suffix_end) {
            None => {},
            Some(u) => {
                let v = match lx.value {
                    Some(v) => v,
                    None => {
                        proof {
                            lemma_run_error(ts, k as int);
                        }
                        return Err(ParseError::InvalidNumber);
                    },
                };
                let (next_secs, next_sub) = match u {
                    Unit::Nanoseconds => (Some(secs), added(sub, Some(v))),
                    Unit::Microseconds => (Some(secs), added(sub, scaled(v, NANOS_PER_MICRO))),
                    Unit::Milliseconds => (Some(secs), added(sub, scaled(v, NANOS_PER_MILLI))),
                    Unit::Seconds => (added(secs, Some(v)), Some(sub)),
                    Unit::MinutesOrMonths => if past_minutes {
                        (added(secs, scaled(v, MONTH)), Some(sub))
                    } else {
                        (added(secs, scaled(v, MINUTE)), Some(sub))
                    },
                    Unit::Hours => (added(secs, scaled(v, HOUR)), Some(sub)),
                    Unit::Days => (added(secs, scaled(v, DAY)), Some(sub)),
                    Unit::Weeks => (added(secs, scaled(v, WEEK)), Some(sub)),
                    Unit::Years => (added(secs, scaled(v, YEAR)), Some(sub)),
                };
                match (next_secs, next_sub) {
                    (Some(x), Some(y)) => {
                        secs = x;
                        sub = y;
                        match u {
                            Unit::Nanoseconds | Unit::Microseconds | Unit::Milliseconds
                            | Unit::Seconds => {},
                            _ => past_minutes = true,
                        }
                    },
                    _ => {
                        proof {
                            lemma_run_error(ts, k as int);
                        }
                        return Err(ParseError::OutOfRange);
                    },
                }
            },
        }
    }
    Ok((secs, sub))
}

} // verus!
