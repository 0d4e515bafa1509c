//! Laws that relate the operations of the library to one another.

use vstd::prelude::*;

use crate::breakdown::{
    below, decompose, filtered, lead, lemma_decompose_normal, lemma_filtered_truncated_below,
    lemma_lead, lemma_below_normal, lemma_below_sums, lemma_decompose_sums,
    lemma_recompose_normal, lemma_trail_upto, nanos_of, seconds_of, span, trail, truncated,
    DurationPart, NANOS_PER_SEC, NUM_PARTS,
};
use crate::fancy::{filter_times, truncate_times};
use crate::text::{format_times, parse_times};

verus! {

/// A normal breakdown lowered unit by unit stands for a pair whose decomposition is itself.
proof fn lemma_lowered_round_trip(s: u64, ns: u64, w: Seq<u64>)
    requires
        ns < NANOS_PER_SEC,
        below(w, decompose(s, ns)),
    ensures
        seconds_of(w) <= s,
        nanos_of(w) < NANOS_PER_SEC,
        decompose(seconds_of(w) as u64, nanos_of(w) as u64) == w,
{
    let v = decompose(s, ns);
    lemma_decompose_sums(s, ns);
    lemma_decompose_normal(s, ns);
    lemma_below_sums(w, v);
    lemma_below_normal(w, v);
    lemma_recompose_normal(w);
}

/// Filtering a breakdown twice by the same units is filtering it once.
pub proof fn law_breakdown_filter_idempotent(v: Seq<u64>, parts: Seq<DurationPart>)
    ensures
        filtered(filtered(v, parts), parts) == filtered(v, parts),
{
    assert(filtered(filtered(v, parts), parts) =~= filtered(v, parts));
}

/// Filtering a duration twice by the same units is filtering it once.
pub proof fn law_filter_idempotent(s: u64, ns: u64, parts: Seq<DurationPart>)
    requires
        ns < NANOS_PER_SEC,
    ensures
        filter_times(filter_times((s, ns), parts), parts) == filter_times((s, ns), parts),
{
    let w = filtered(decompose(s, ns), parts);
    lemma_filtered_truncated_below(decompose(s, ns), parts, 0);
    lemma_lowered_round_trip(s, ns, w);
    law_breakdown_filter_idempotent(decompose(s, ns), parts);
}

/// Truncating to fewer units keeps a prefix of a truncation to more units: the counts agree
/// up to the shorter limit and the shorter truncation is zero after it. Cutting the longer
/// truncation to the shorter limit gives the shorter truncation.
pub proof fn law_breakdown_truncate_prefix(v: Seq<u64>, k1: int, k2: int)
    requires
        v.len() == NUM_PARTS,
        0 <= k1 <= k2,
    ensures
        forall|i: int|
            0 <= i < lead(v) + k1 && i < NUM_PARTS ==> #[trigger] truncated(v, k1)[i]
                == truncated(v, k2)[i],
        forall|i: int|
            lead(v) + k1 <= i < NUM_PARTS ==> #[trigger] truncated(v, k1)[i] == 0,
        truncated(truncated(v, k2), k1) == truncated(v, k1),
{
    let t2 = truncated(v, k2);
    lemma_lead(v);
    lemma_lead(t2);
    if k2 > 0 && lead(v) < NUM_PARTS {
        assert(t2[lead(v)] != 0);
        assert(lead(t2) == lead(v));
    } else {
        assert(forall|i: int| 0 <= i < NUM_PARTS ==> t2[i] == 0);
        assert(lead(t2) == NUM_PARTS);
    }
    assert(truncated(t2, k1) =~= truncated(v, k1));
}

/// A truncation that may keep every unit from the first nonzero one to the last leaves the
/// breakdown as it is.
pub proof fn law_breakdown_truncate_full(v: Seq<u64>, k: int)
    requires
        v.len() == NUM_PARTS,
        k >= span(v),
    ensures
        truncated(v, k) == v,
{
    lemma_lead(v);
    lemma_trail_upto(v, NUM_PARTS as int);
    assert(truncated(v, k) =~= v);
}

/// Truncating a duration to fewer units gives the truncation, to that many units, of its
/// truncation to more units.
pub proof fn law_truncate_prefix(s: u64, ns: u64, k1: int, k2: int)
    requires
        ns < NANOS_PER_SEC,
        0 <= k1 <= k2,
    ensures
        decompose(truncate_times((s, ns), k1).0, truncate_times((s, ns), k1).1) == truncated(
            decompose(truncate_times((s, ns), k2).0, truncate_times((s, ns), k2).1),
            k1,
        ),
{
    let v = decompose(s, ns);
    lemma_filtered_truncated_below(v, seq![], k1);
    lemma_filtered_truncated_below(v, seq![], k2);
    lemma_lowered_round_trip(s, ns, truncated(v, k1));
    lemma_lowered_round_trip(s, ns, truncated(v, k2));
    law_breakdown_truncate_prefix(v, k1, k2);
}

/// Truncating a duration to at least as many units as lie from its first nonzero unit to its
/// last leaves it as it is.
pub proof fn law_truncate_full(s: u64, ns: u64, k: int)
    requires
        ns < NANOS_PER_SEC,
        k >= span(decompose(s, ns)),
    ensures
        truncate_times((s, ns), k) == (s, ns),
{
    lemma_decompose_sums(s, ns);
    law_breakdown_truncate_full(decompose(s, ns), k);
}

/// A zero duration is written `"0"`, and `"0"` reads as zero: the lone digit has no suffix and
/// makes no token.
pub proof fn law_zero(pad: bool)
    ensures
        format_times(0, 0, pad) == seq!['0'],
        parse_times(seq![48u8]) == Ok::<(u64, u64), crate::text::ParseError>((0u64, 0u64)),
{
    let b = seq![48u8];
    assert(crate::text::digits_len(b, 1) == 0);
    assert(crate::text::tokens(b) =~= Seq::empty());
}

} // verus!
