//! Text written by the formatter reads back as the duration it was written from.

use vstd::prelude::*;
use vstd::string::{is_ascii, is_ascii_spec_bytes, StringSliceAdditionalSpecFns};
use vstd::utf8::is_ascii_chars;

use crate::breakdown::{
    decompose, is_normal, lemma_decompose_normal, lemma_decompose_sums, nanos_of, seconds_of,
    DAY, HOUR, MINUTE, MONTH, NANOS_PER_MICRO, NANOS_PER_MILLI, NANOS_PER_SEC, NUM_PARTS, WEEK,
    YEAR,
};
use crate::laws::law_zero;
use crate::text::{
    decimal, digit_char, digits_len, digits_value, format_times, is_digit, is_letter, lemma_digits_len,
    parse_times, piece, rendered, run, step, suffix, tokens, tokens_from, unit_of, add_unit, Token,
    Unit, ParseError,
};

verus! {

/// The bytes of a text of ASCII characters.
pub open spec fn ascii_bytes(cs: Seq<char>) -> Seq<u8> {
    cs.map_values(|c: char| c as u8)
}

/// A month count can be read back: where there are months, some week, day, hour or minute
/// count follows them, so that their `m` is not taken for minutes.
pub open spec fn months_unambiguous(v: Seq<u64>) -> bool {
    v[1] != 0 ==> (v[2] != 0 || v[3] != 0 || v[4] != 0 || v[5] != 0)
}

/// The unit that the suffix at position `i` of a breakdown names.
spec fn unit_for(i: int) -> Unit {
    if i == 0 {
        Unit::Years
    } else if i == 1 || i == 5 {
        Unit::MinutesOrMonths
    } else if i == 2 {
        Unit::Weeks
    } else if i == 3 {
        Unit::Days
    } else if i == 4 {
        Unit::Hours
    } else if i == 6 {
        Unit::Seconds
    } else if i == 7 {
        Unit::Milliseconds
    } else if i == 8 {
        Unit::Microseconds
    } else {
        Unit::Nanoseconds
    }
}

/// The tokens of the nonzero counts of `v` from position `n` on.
spec fn toks_after(v: Seq<u64>, n: int) -> Seq<Token>
    decreases NUM_PARTS - n,
{
    if n >= NUM_PARTS {
        Seq::empty()
    } else if v[n] == 0 {
        toks_after(v, n + 1)
    } else {
        seq![Token { value: v[n] as nat, suffix: ascii_bytes(suffix(n)) }] + toks_after(v, n + 1)
    }
}

/// Seconds in one of the unit at position `i`, zero below a second.
spec fn sec_weight(i: int) -> int {
    if i == 0 {
        YEAR as int
    } else if i == 1 {
        MONTH as int
    } else if i == 2 {
        WEEK as int
    } else if i == 3 {
        DAY as int
    } else if i == 4 {
        HOUR as int
    } else if i == 5 {
        MINUTE as int
    } else if i == 6 {
        1
    } else {
        0
    }
}

/// Nanoseconds in one of the unit at position `i`, for the units below a second.
spec fn nano_weight(i: int) -> int {
    if i == 7 {
        NANOS_PER_MILLI as int
    } else if i == 8 {
        NANOS_PER_MICRO as int
    } else if i == 9 {
        1
    } else {
        0
    }
}

/// The seconds of the counts of `v` from position `n` on.
spec fn sec_from(v: Seq<u64>, n: int) -> int
    decreases NUM_PARTS - n,
{
    if n >= NUM_PARTS {
        0
    } else {
        v[n] * sec_weight(n) + sec_from(v, n + 1)
    }
}

/// The nanoseconds of the counts of `v` from position `n` on.
spec fn nano_from(v: Seq<u64>, n: int) -> int
    decreases NUM_PARTS - n,
{
    if n >= NUM_PARTS {
        0
    } else {
        v[n] * nano_weight(n) + nano_from(v, n + 1)
    }
}

/// Whether a unit from hours up to years, or minutes, has a nonzero count at or after `n`.
spec fn past_from(v: Seq<u64>, n: int) -> bool
    decreases NUM_PARTS - n,
{
    if n >= 6 {
        false
    } else {
        v[n] != 0 || past_from(v, n + 1)
    }
}

proof fn lemma_digit_char(d: nat)
    requires
        d < 10,
    ensures
        digit_char(d) as u8 == 48 + d,
        '0' <= digit_char(d) <= '9',
{
    let ds = seq!['0', '1', '2', '3', '4', '5', '6', '7', '8', '9'];
    assert(ds[0] == '0' && ds[1] == '1' && ds[2] == '2' && ds[3] == '3' && ds[4] == '4');
    assert(ds[5] == '5' && ds[6] == '6' && ds[7] == '7' && ds[8] == '8' && ds[9] == '9');
}

/// The decimal digits of `n` are digits, and read back as `n`.
proof fn lemma_decimal(n: nat)
    ensures
        decimal(n).len() >= 1,
        forall|i: int| 0 <= i < decimal(n).len() ==> is_digit(#[trigger] decimal(n)[i] as u8),
        digits_value(ascii_bytes(decimal(n))) == n,
    decreases n,
{
    let b = ascii_bytes(decimal(n));
    if n < 10 {
        lemma_digit_char(n);
        assert(b.len() == 1);
        assert(b[0] == digit_char(n) as u8);
        assert(b.drop_last() =~= Seq::empty());
        assert(digits_value(b.drop_last()) == 0);
    } else {
        lemma_decimal(n / 10);
        lemma_digit_char(n % 10);
        let d = decimal(n / 10);
        assert(decimal(n) == d + seq![digit_char(n % 10)]);
        assert(b.drop_last() =~= ascii_bytes(d));
        assert(b.last() == digit_char(n % 10) as u8);
        assert forall|i: int| 0 <= i < decimal(n).len() implies is_digit(
            #[trigger] decimal(n)[i] as u8,
        ) by {
            if i < d.len() {
                assert(decimal(n)[i] == d[i]);
            } else {
                assert(decimal(n)[i] == digit_char(n % 10));
            }
        }
    }
}

/// The suffix at position `i` is one or two letters naming the unit at `i`.
proof fn lemma_suffix(i: int)
    requires
        0 <= i < NUM_PARTS,
    ensures
        1 <= suffix(i).len() <= 2,
        forall|x: int| 0 <= x < suffix(i).len() ==> is_letter(#[trigger] suffix(i)[x] as u8),
        unit_of(ascii_bytes(suffix(i))) == Some(unit_for(i)),
{
    let b = ascii_bytes(suffix(i));
    assert(b.len() == suffix(i).len());
    if i < 7 {
        assert(b[0] == suffix(i)[0] as u8);
    } else {
        assert(b[0] == suffix(i)[0] as u8);
        assert(b[1] == suffix(i)[1] as u8);
    }
}

/// The rendering of more counts extends the rendering of fewer, and what it adds is empty or
/// starts with a space or a digit.
proof fn lemma_rendered_extends(v: Seq<u64>, n: int, m: int, pad: bool)
    requires
        0 <= n <= m <= NUM_PARTS,
        v.len() == NUM_PARTS,
    ensures
        rendered(v, m, pad).len() >= rendered(v, n, pad).len(),
        rendered(v, m, pad).subrange(0, rendered(v, n, pad).len() as int) == rendered(v, n, pad),
        rendered(v, m, pad).len() > rendered(v, n, pad).len() ==> {
            let c = rendered(v, m, pad)[rendered(v, n, pad).len() as int];
            c == ' ' || is_digit(c as u8)
        },
    decreases m - n,
{
    if m > n {
        lemma_rendered_extends(v, n, m - 1, pad);
        let prev = rendered(v, m - 1, pad);
        let base = rendered(v, n, pad);
        if v[m - 1] != 0 {
            lemma_decimal(v[m - 1] as nat);
            let cur = rendered(v, m, pad);
            if pad && prev.len() > 0 {
                assert(cur == prev + seq![' '] + piece(v, m - 1));
            } else {
                assert(cur == prev + piece(v, m - 1));
            }
            assert(cur.subrange(0, prev.len() as int) =~= prev);
            assert(cur.subrange(0, base.len() as int) =~= prev.subrange(0, base.len() as int));
            if prev.len() == base.len() && cur.len() > base.len() {
                if !(pad && prev.len() > 0) {
                    assert(cur[base.len() as int] == decimal(v[m - 1] as nat)[0]);
                }
            }
            if prev.len() > base.len() {
                assert(cur[base.len() as int] == prev[base.len() as int]);
            }
        }
    }
}

/// The bytes of a stretch of a text are the bytes of that stretch.
proof fn lemma_ascii_subrange(full: Seq<char>, a: int, b: int)
    requires
        0 <= a <= b <= full.len(),
    ensures
        ascii_bytes(full).subrange(a, b) == ascii_bytes(full.subrange(a, b)),
{
    assert(ascii_bytes(full).subrange(a, b) =~= ascii_bytes(full.subrange(a, b)));
}

/// Digits `d` at `q`, then letters `l`, then no letter: one token, and the reading goes on
/// after it.
proof fn lemma_token_at(f: Seq<u8>, q: int, d: Seq<u8>, l: Seq<u8>)
    requires
        0 <= q,
        q + d.len() + l.len() <= f.len(),
        d.len() >= 1,
        1 <= l.len() <= 2,
        f.subrange(q, q + d.len()) == d,
        f.subrange(q + d.len(), q + d.len() + l.len()) == l,
        forall|x: int| 0 <= x < d.len() ==> is_digit(#[trigger] d[x]),
        forall|x: int| 0 <= x < l.len() ==> is_letter(#[trigger] l[x]),
        q + d.len() + l.len() < f.len() ==> !is_letter(f[q + d.len() + l.len()]),
    ensures
        tokens_from(f, q) == seq![Token { value: digits_value(d), suffix: l }] + tokens_from(
            f,
            q + d.len() + l.len(),
        ),
{
    let j = q + d.len();
    let k = j + l.len();
    assert forall|x: int| q <= x < j implies is_digit(#[trigger] f[x]) by {
        assert(f[x] == f.subrange(q, j)[x - q]);
    }
    assert forall|x: int| j <= x < k implies is_letter(#[trigger] f[x]) by {
        assert(f[x] == f.subrange(j, k)[x - j]);
    }
    assert(f[q] == d[0]);
    lemma_digits_len(f, q + 1, j);
}

/// The tokens of the rendering of `v` from where the rendering of the first `n` counts ends.
#[verifier::rlimit(40)]
proof fn lemma_tokens_walk(v: Seq<u64>, pad: bool, n: int)
    requires
        0 <= n <= NUM_PARTS,
        v.len() == NUM_PARTS,
    ensures
        tokens_from(ascii_bytes(rendered(v, NUM_PARTS as int, pad)), rendered(v, n, pad).len() as int)
            == toks_after(v, n),
    decreases NUM_PARTS - n,
{
    let full = rendered(v, NUM_PARTS as int, pad);
    let f = ascii_bytes(full);
    if n < NUM_PARTS {
        lemma_tokens_walk(v, pad, n + 1);
        if v[n] != 0 {
            let prev = rendered(v, n, pad);
            let cur = rendered(v, n + 1, pad);
            let dec = decimal(v[n] as nat);
            let suf = suffix(n);
            lemma_decimal(v[n] as nat);
            lemma_suffix(n);
            lemma_rendered_extends(v, n + 1, NUM_PARTS as int, pad);
            let sep: Seq<char> = if pad && prev.len() > 0 {
                seq![' ']
            } else {
                Seq::empty()
            };
            assert(cur =~= prev + sep + dec + suf);
            let p = prev.len() as int;
            let q = p + sep.len();
            let j = q + dec.len();
            let k = j + suf.len();
            assert(full.subrange(0, k) == cur);
            assert forall|x: int| 0 <= x < k implies #[trigger] full[x] == cur[x] by {
                assert(full[x] == full.subrange(0, k)[x]);
            }
            assert(full.subrange(q, j) =~= dec);
            assert(full.subrange(j, k) =~= suf);
            lemma_ascii_subrange(full, q, j);
            lemma_ascii_subrange(full, j, k);
            let d = ascii_bytes(dec);
            let l = ascii_bytes(suf);
            assert forall|x: int| 0 <= x < d.len() implies is_digit(#[trigger] d[x]) by {
                assert(d[x] == dec[x] as u8);
            }
            assert forall|x: int| 0 <= x < l.len() implies is_letter(#[trigger] l[x]) by {
                assert(l[x] == suf[x] as u8);
            }
            if k < f.len() {
                assert(f[k] == full[k] as u8);
            }
            lemma_token_at(f, q, d, l);
            lemma_decimal(v[n] as nat);
            if sep.len() == 1 {
                assert(full[p] == cur[p]);
                assert(f[p] == full[p] as u8);
                assert(tokens_from(f, p) == tokens_from(f, q));
            }
        }
    }
}

/// Reading `seq![t] + rest` right to left reads `rest`, then `t`.
proof fn lemma_run_cons(t: Token, rest: Seq<Token>, i: int)
    requires
        0 <= i <= rest.len(),
    ensures
        run(seq![t] + rest, i + 1) == run(rest, i),
    decreases rest.len() - i,
{
    if i < rest.len() {
        lemma_run_cons(t, rest, i + 1);
        assert((seq![t] + rest)[i + 1] == rest[i]);
    }
}

/// The seconds and nanoseconds of the counts from `n` on are at most those of all counts.
proof fn lemma_sums_from(v: Seq<u64>, n: int)
    requires
        0 <= n <= NUM_PARTS,
        v.len() == NUM_PARTS,
    ensures
        0 <= sec_from(v, n) <= sec_from(v, 0),
        0 <= nano_from(v, n) <= nano_from(v, 0),
    decreases n,
{
    if n > 0 {
        lemma_sums_from(v, n - 1);
        lemma_sums_nonneg(v, n);
        let w = sec_weight(n - 1);
        let u = nano_weight(n - 1);
        assert(v[n - 1] * w >= 0) by (nonlinear_arith)
            requires
                v[n - 1] >= 0,
                w >= 0,
        ;
        assert(v[n - 1] * u >= 0) by (nonlinear_arith)
            requires
                v[n - 1] >= 0,
                u >= 0,
        ;
    } else {
        lemma_sums_nonneg(v, 0);
    }
}

proof fn lemma_sums_nonneg(v: Seq<u64>, n: int)
    requires
        0 <= n <= NUM_PARTS,
        v.len() == NUM_PARTS,
    ensures
        0 <= sec_from(v, n),
        0 <= nano_from(v, n),
    decreases NUM_PARTS - n,
{
    if n < NUM_PARTS {
        lemma_sums_nonneg(v, n + 1);
        let w = sec_weight(n);
        let u = nano_weight(n);
        assert(v[n] * w >= 0) by (nonlinear_arith)
            requires
                v[n] >= 0,
                w >= 0,
        ;
        assert(v[n] * u >= 0) by (nonlinear_arith)
            requires
                v[n] >= 0,
                u >= 0,
        ;
    }
}

/// Reading the tokens of the counts from `n` on gives their seconds and nanoseconds.
proof fn lemma_run_after(v: Seq<u64>, n: int)
    requires
        0 <= n <= NUM_PARTS,
        v.len() == NUM_PARTS,
        months_unambiguous(v),
        sec_from(v, 0) <= u64::MAX,
        nano_from(v, 0) <= u64::MAX,
    ensures
        run(toks_after(v, n), 0) == Ok::<(int, int, bool), ParseError>(
            (sec_from(v, n), nano_from(v, n), past_from(v, n)),
        ),
    decreases NUM_PARTS - n,
{
    if n < NUM_PARTS {
        lemma_run_after(v, n + 1);
        lemma_sums_from(v, n);
        if v[n] != 0 {
            let t = Token { value: v[n] as nat, suffix: ascii_bytes(suffix(n)) };
            let rest = toks_after(v, n + 1);
            lemma_suffix(n);
            lemma_run_cons(t, rest, 0);
            assert(toks_after(v, n) == seq![t] + rest);
            assert((seq![t] + rest)[0] == t);
            if n == 1 {
                assert(past_from(v, 2)) by {
                    reveal_with_fuel(past_from, 5);
                }
            }
            if n == 5 {
                assert(!past_from(v, 6));
            }
        }
    }
}

/// The seconds and nanoseconds of all counts are those that the breakdown stands for.
proof fn lemma_sums_all(v: Seq<u64>)
    requires
        v.len() == NUM_PARTS,
    ensures
        sec_from(v, 0) == seconds_of(v),
        nano_from(v, 0) == nanos_of(v),
{
    reveal_with_fuel(sec_from, 11);
    reveal_with_fuel(nano_from, 11);
}

/// Text written by the formatter, padded or compact, reads back as the duration it was
/// written from, provided that any months it holds are followed by a finer unit down to
/// minutes. (Without one, as for 90 days written `"3m"`, the `m` reads as minutes.)
pub proof fn law_format_parse_round_trip(s: u64, ns: u64, pad: bool)
    requires
        ns < NANOS_PER_SEC,
        months_unambiguous(decompose(s, ns)),
    ensures
        parse_times(ascii_bytes(format_times(s, ns, pad))) == Ok::<(u64, u64), ParseError>((s, ns)),
{
    if s == 0 && ns == 0 {
        law_zero(pad);
        assert(ascii_bytes(format_times(s, ns, pad)) =~= seq![48u8]);
    } else {
        let v = decompose(s, ns);
        lemma_decompose_sums(s, ns);
        lemma_sums_all(v);
        lemma_tokens_walk(v, pad, 0);
        lemma_run_after(v, 0);
    }
}

/// The decimal digits of `n` are the characters `0` to `9`.
proof fn lemma_decimal_chars(n: nat)
    ensures
        forall|i: int| 0 <= i < decimal(n).len() ==> '0' <= #[trigger] decimal(n)[i] <= '9',
    decreases n,
{
    if n < 10 {
        lemma_digit_char(n);
    } else {
        lemma_decimal_chars(n / 10);
        lemma_digit_char(n % 10);
        let d = decimal(n / 10);
        assert(decimal(n) == d + seq![digit_char(n % 10)]);
        assert forall|i: int| 0 <= i < decimal(n).len() implies '0' <= #[trigger] decimal(n)[i]
            <= '9' by {
            if i < d.len() {
                assert(decimal(n)[i] == d[i]);
            }
        }
    }
}

/// The rendering of counts is ASCII text.
proof fn lemma_rendered_ascii(v: Seq<u64>, n: int, pad: bool)
    requires
        0 <= n <= NUM_PARTS,
        v.len() == NUM_PARTS,
    ensures
        is_ascii_chars(rendered(v, n, pad)),
    decreases n,
{
    if n > 0 {
        lemma_rendered_ascii(v, n - 1, pad);
        if v[n - 1] != 0 {
            let prev = rendered(v, n - 1, pad);
            let dec = decimal(v[n - 1] as nat);
            let suf = suffix(n - 1);
            lemma_decimal_chars(v[n - 1] as nat);
            let sep: Seq<char> = if pad && prev.len() > 0 {
                seq![' ']
            } else {
                Seq::empty()
            };
            let cur = rendered(v, n, pad);
            assert(cur =~= prev + sep + dec + suf);
            assert forall|i: int| 0 <= i < cur.len() implies '\0' <= #[trigger] cur[i] <= '\u{7f}' by {
                if i < prev.len() {
                    assert(cur[i] == prev[i]);
                } else if i < prev.len() + sep.len() {
                    assert(cur[i] == ' ');
                } else if i < prev.len() + sep.len() + dec.len() {
                    assert(cur[i] == dec[i - prev.len() - sep.len()]);
                } else {
                    assert(cur[i] == suf[i - prev.len() - sep.len() - dec.len()]);
                    assert('a' <= suf[i - prev.len() - sep.len() - dec.len()] <= 'z');
                }
            }
        }
    }
}

/// Any text that holds what the formatter writes, padded or compact, reads back as the
/// duration it was written from, under the same proviso on months as
/// `law_format_parse_round_trip`.
pub proof fn law_format_parse_text(text: &str, s: u64, ns: u64, pad: bool)
    requires
        ns < NANOS_PER_SEC,
        months_unambiguous(decompose(s, ns)),
        text@ == format_times(s, ns, pad),
    ensures
        parse_times(text.spec_bytes()) == Ok::<(u64, u64), ParseError>((s, ns)),
{
    law_format_parse_round_trip(s, ns, pad);
    if s == 0 && ns == 0 {
        assert(is_ascii_chars(text@));
    } else {
        lemma_rendered_ascii(decompose(s, ns), NUM_PARTS as int, pad);
    }
    assert(is_ascii(text));
    is_ascii_spec_bytes(text);
    assert(text.spec_bytes() =~= ascii_bytes(text@));
}

} // verus!
