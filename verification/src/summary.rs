//! The order-statistics engine: exact five-number summaries (Tukey fences,
//! quartiles, median) derived from a quality histogram by rank, without
//! materializing or sorting the underlying samples.
//!
//! Every produced value is an exact multiple of one eighth of a score, so
//! the engine works in integer fixed-point arithmetic: a value of `v`
//! eighths denotes `v / 8`.

use vstd::prelude::*;

use crate::aggregate::{position_total, table_wf};
use crate::histogram::{
    lemma_sample_at, lemma_samples_sorted, lemma_sum_prefix_monotone,
    lemma_sum_prefix_nonneg, samples, sum_prefix, total, total_count, ALPHABET_SIZE,
    MAX_HISTOGRAM_LEN,
};

verus! {

/// Numerator of the Tukey fence multiplier `3 / 2`: fences sit one and a
/// half interquartile ranges beyond the quartiles.
pub const FENCE_MULTIPLIER_NUM: i64 = 3;

/// Denominator of the Tukey fence multiplier `3 / 2`.
pub const FENCE_MULTIPLIER_DEN: i64 = 2;

/// A five-number summary of one histogram. Every field is an exact integer
/// count of eighths of a quality score: a field holding `v` denotes the
/// value `v / 8`. The fences are Tukey outlier fences, not observed
/// extrema: they may lie outside the observed score range.
#[derive(Clone, Copy, Debug, PartialEq, Eq, Structural)]
pub struct FiveNumberSummary {
    pub lower_fence: i64,
    pub q1: i64,
    pub median: i64,
    pub q3: i64,
    pub upper_fence: i64,
}

/// Value, in eighths, of the sample population interpolated at `d` quarters
/// past the `n`-th smallest sample (1-based rank `n`).
pub open spec fn interp_eighths(h: Seq<usize>, n: int, d: int) -> int {
    8 * samples(h)[n - 1] + 2 * ((samples(h)[n] - samples(h)[n - 1]) * d)
}

/// The `k / 4` quantile (k in 1..=3) of the sample population of `h`, in
/// eighths: exactly the value obtained by sorting all samples and linearly
/// interpolating at the real-valued rank `k * (total - 1) / 4`; for a
/// single-sample histogram, the single sample itself.
pub open spec fn quantile_eighths(h: Seq<usize>, k: int) -> int {
    let t = total(h);
    if t == 1 {
        8 * samples(h)[0]
    } else {
        interp_eighths(h, k * (t - 1) / 4 + 1, k * (t - 1) % 4)
    }
}

/// `s` is the five-number summary of histogram `h`: the quartiles are the
/// exact rank-based quantiles, and the fences sit `3 / 2` of the
/// interquartile range beyond them (stated doubled, so that the statement
/// stays in integers).
pub open spec fn summary_of(s: FiveNumberSummary, h: Seq<usize>) -> bool {
    &&& s.q1 == quantile_eighths(h, 1)
    &&& s.median == quantile_eighths(h, 2)
    &&& s.q3 == quantile_eighths(h, 3)
    &&& FENCE_MULTIPLIER_DEN * s.lower_fence == FENCE_MULTIPLIER_DEN * s.q1
        - FENCE_MULTIPLIER_NUM * (s.q3 - s.q1)
    &&& FENCE_MULTIPLIER_DEN * s.upper_fence == FENCE_MULTIPLIER_DEN * s.q3
        + FENCE_MULTIPLIER_NUM * (s.q3 - s.q1)
}

/// A single-sample histogram expands to the one-element sample sequence.
pub proof fn lemma_singleton_samples(h: Seq<usize>, v: int)
    requires
        0 <= v < h.len(),
        h[v] >= 1,
        total(h) == 1,
    ensures
        samples(h) =~= seq![v],
        h[v] == 1,
{
    lemma_sum_prefix_nonneg(h, v);
    lemma_sum_prefix_monotone(h, v + 1, h.len() as int);
    assert(sum_prefix(h, v + 1) == sum_prefix(h, v) + h[v]);
    lemma_sample_at(h, v, 0);
    lemma_samples_sorted(h);
}

/// Scans the histogram for the sample of 1-based rank `n` and returns the
/// population value `d` quarters past it, in eighths.
fn rank_value_eighths(h: &Vec<usize>, n: usize, d: u8) -> (v: i64)
    requires
        1 <= h@.len() <= MAX_HISTOGRAM_LEN,
        total(h@) <= usize::MAX,
        1 <= n < total(h@),
        d < 4,
    ensures
        v == interp_eighths(h@, n as int, d as int),
        v % 2 == 0,
        0 <= v <= 8 * (h@.len() - 1),
{
    let mut i: usize = 0;
    let mut acc: usize = 0;
    let mut low: usize = 0;
    let mut has_low: bool = false;
    let mut v: i64 = 0;
    let mut found: bool = false;
    while !found && i < h.len()
        invariant
            0 <= i <= h@.len(),
            1 <= h@.len() <= MAX_HISTOGRAM_LEN,
            total(h@) <= usize::MAX,
            1 <= n < total(h@),
            d < 4,
            !found ==> acc == sum_prefix(h@, i as int),
            !found ==> acc <= n,
            !found ==> (acc == n ==> has_low),
            !found && has_low ==> low < i && h@[low as int] > 0 && sum_prefix(
                h@,
                low as int + 1,
            ) == acc,
            !found && !has_low ==> acc == 0,
            found ==> v == interp_eighths(h@, n as int, d as int) && v % 2 == 0 && 0 <= v <= 8 * (
            h@.len() - 1),
        decreases h@.len() - i,
    {
        let count = h[i];
        if count > 0 {
            if acc == n && has_low {
                // rank n is the last sample of bucket `low`, rank n + 1 the
                // first of bucket `i`: interpolate between the two scores
                proof {
                    lemma_sample_at(h@, low as int, n as int - 1);
                    lemma_sample_at(h@, i as int, n as int);
                    assert((i as int - low as int) * (d as int) >= 0) by (nonlinear_arith)
                        requires
                            i as int >= low as int,
                            d as int >= 0,
                    ;
                    assert((i as int - low as int) * (d as int) <= 3 * (i as int - low as int))
                        by (nonlinear_arith)
                        requires
                            i as int >= low as int,
                            0 <= d as int <= 3,
                    ;
                }
                let diff: i64 = (i as i64) - (low as i64);
                let step: i64 = diff * (d as i64);
                v = 8 * (low as i64) + 2 * step;
                found = true;
            } else if count > n - acc {
                // rank n falls strictly inside bucket `i`: both straddling
                // samples are the score `i` itself
                proof {
                    lemma_sample_at(h@, i as int, n as int - 1);
                    lemma_sample_at(h@, i as int, n as int);
                }
                v = 8 * (i as i64);
                found = true;
            } else {
                acc = acc + count;
                low = i;
                has_low = true;
            }
        }
        i = i + 1;
    }
    proof {
        if !found {
            assert(acc == sum_prefix(h@, h@.len() as int));
            assert(false);
        }
    }
    v
}

/// Computes the `k / 4` quantile of `h`, in eighths, for a histogram of
/// total `t >= 2`.
fn quantile_value(h: &Vec<usize>, t: usize, k: u8) -> (v: i64)
    requires
        1 <= h@.len() <= MAX_HISTOGRAM_LEN,
        total(h@) <= usize::MAX,
        t == total(h@),
        2 <= t,
        1 <= k <= 3,
    ensures
        v == quantile_eighths(h@, k as int),
        v % 2 == 0,
        0 <= v <= 8 * (h@.len() - 1),
{
    proof {
        assert(k as int * ((t - 1) as int) <= 3 * ((t - 1) as int)) by (nonlinear_arith)
            requires
                1 <= k <= 3,
                t >= 2,
        ;
    }
    let qr: u128 = (k as u128) * ((t - 1) as u128);
    let fl: u128 = qr / 4;
    let d: u8 = (qr % 4) as u8;
    proof {
        assert(qr <= 3 * (t as int - 1)) by (nonlinear_arith)
            requires
                qr == k * (t - 1),
                1 <= k <= 3,
                t >= 2,
        ;
        assert(qr == 4 * (qr as int / 4) + qr as int % 4);
        assert(fl <= t - 2);
        assert(1 <= fl + 1 < t);
    }
    let n: usize = (fl as usize) + 1;
    let v = rank_value_eighths(h, n, d);
    v
}

/// Derives the five-number summary of `h`: exact rank-based quartiles and
/// median, and Tukey fences `3 / 2` of the interquartile range beyond the
/// outer quartiles. A histogram holding a single sample summarizes to five
/// copies of that sample.
pub fn summarize(h: &Vec<usize>) -> (s: FiveNumberSummary)
    requires
        1 <= total(h@),
        total(h@) <= usize::MAX,
        h@.len() <= MAX_HISTOGRAM_LEN,
    ensures
        summary_of(s, h@),
{
    let t = total_count(h);
    if t == 1 {
        let w = single_value(h);
        let ve: i64 = 8 * (w as i64);
        FiveNumberSummary {
            lower_fence: ve,
            q1: ve,
            median: ve,
            q3: ve,
            upper_fence: ve,
        }
    } else {
        let q1 = quantile_value(h, t, 1);
        let q2 = quantile_value(h, t, 2);
        let q3 = quantile_value(h, t, 3);
        proof {
            lemma_quantile_le(h@, 1, 3);
        }
        let iqr: i64 = q3 - q1;
        proof {
            assert((FENCE_MULTIPLIER_NUM as u64) * (iqr as u64) == 3 * (iqr as u64))
                by (nonlinear_arith)
            requires
                (FENCE_MULTIPLIER_NUM as u64) == 3,
            ;
            assert((FENCE_MULTIPLIER_DEN as u64) == 2);
        }
        let offset: i64 = (((FENCE_MULTIPLIER_NUM as u64) * (iqr as u64)) / (
        FENCE_MULTIPLIER_DEN as u64)) as i64;
        FiveNumberSummary {
            lower_fence: q1 - offset,
            q1,
            median: q2,
            q3,
            upper_fence: q3 + offset,
        }
    }
}

/// Finds the unique observed score of a single-sample histogram.
fn single_value(h: &Vec<usize>) -> (v: usize)
    requires
        total(h@) == 1,
    ensures
        0 <= (v as int) < h@.len(),
        h@[v as int] == 1,
        samples(h@) =~= seq![v as int],
{
    let mut i: usize = 0;
    while i < h.len()
        invariant
            0 <= i <= h@.len(),
            total(h@) == 1,
            sum_prefix(h@, i as int) == 0,
        decreases h@.len() - i,
    {
        if h[i] > 0 {
            proof {
                lemma_singleton_samples(h@, i as int);
            }
            return i;
        }
        i = i + 1;
    }
    // never reached: a histogram with a sample has a nonzero bucket
    proof {
        assert(false);
    }
    0
}

/// The interpolated population value is monotone in the quarter-rank: one
/// quarter step never decreases it.
proof fn lemma_interp_step(h: Seq<usize>, j: int)
    requires
        total(h) >= 2,
        0 <= j,
        j + 1 <= 3 * (total(h) - 1),
    ensures
        interp_eighths(h, j / 4 + 1, j % 4) <= interp_eighths(h, (j + 1) / 4 + 1, (j + 1) % 4),
{
    let t = total(h);
    let s = samples(h);
    lemma_samples_sorted(h);
    let f = j / 4;
    assert(4 * f + j % 4 == j);
    assert(f <= t - 2) by {
        assert(j <= 3 * t - 4);
        assert(j / 4 <= t - 2) by (nonlinear_arith)
            requires
                0 <= j,
                j <= 3 * t - 4,
                t >= 2,
        ;
    }
    assert(0 <= f < f + 1 < t);
    assert(s[f] <= s[f + 1]);
    if j % 4 < 3 {
        assert((j + 1) / 4 == f && (j + 1) % 4 == j % 4 + 1);
        assert((s[f + 1] - s[f]) * (j % 4 + 1) == (s[f + 1] - s[f]) * (j % 4) + (s[f + 1] - s[f]))
            by (nonlinear_arith);
    } else {
        assert((j + 1) / 4 == f + 1 && (j + 1) % 4 == 0);
        assert((s[f + 1] - s[f]) * 3 == 3 * s[f + 1] - 3 * s[f]) by (nonlinear_arith);
        assert((s[f + 2 - 1] - s[f + 1 - 1]) * 0 == 0) by (nonlinear_arith);
        assert(interp_eighths(h, f + 2, 0) == 8 * s[f + 1]);
        assert(interp_eighths(h, f + 1, 3) == 2 * s[f] + 6 * s[f + 1]);
    }
}

/// The interpolated population value is monotone over any span of
/// quarter-ranks.
proof fn lemma_interp_monotone(h: Seq<usize>, j1: int, j2: int)
    requires
        total(h) >= 2,
        0 <= j1 <= j2 <= 3 * (total(h) - 1),
    ensures
        interp_eighths(h, j1 / 4 + 1, j1 % 4) <= interp_eighths(h, j2 / 4 + 1, j2 % 4),
    decreases j2 - j1,
{
    if j1 < j2 {
        lemma_interp_monotone(h, j1, j2 - 1);
        lemma_interp_step(h, j2 - 1);
    }
}

/// A lower quantile never exceeds a higher one.
pub proof fn lemma_quantile_le(h: Seq<usize>, k1: int, k2: int)
    requires
        total(h) >= 1,
        1 <= k1 <= k2 <= 3,
    ensures
        quantile_eighths(h, k1) <= quantile_eighths(h, k2),
{
    let t = total(h);
    if t >= 2 {
        let j1 = k1 * (t - 1);
        let j2 = k2 * (t - 1);
        assert(0 <= j1 && j1 <= j2 && j2 <= 3 * (t - 1)) by (nonlinear_arith)
            requires
                j1 == k1 * (t - 1),
                j2 == k2 * (t - 1),
                1 <= k1 <= k2 <= 3,
                t >= 2,
        ;
        lemma_interp_monotone(h, j1, j2);
    }
}

/// Law: for every histogram with at least one sample, the five summary
/// values are ordered: lower fence <= q1 <= median <= q3 <= upper fence.
pub proof fn lemma_summary_ordered(s: FiveNumberSummary, h: Seq<usize>)
    requires
        summary_of(s, h),
        total(h) >= 1,
    ensures
        s.lower_fence <= s.q1,
        s.q1 <= s.median,
        s.median <= s.q3,
        s.q3 <= s.upper_fence,
{
    lemma_quantile_le(h, 1, 2);
    lemma_quantile_le(h, 2, 3);
}

/// `rows` lists, in ascending position order, exactly the positions of the
/// table that hold at least one sample, each paired with the five-number
/// summary of its histogram.
pub open spec fn rows_match(t: Seq<Seq<usize>>, rows: Seq<(usize, FiveNumberSummary)>) -> bool {
    &&& forall|j: int|
        0 <= j < rows.len() ==> (#[trigger] rows[j]).0 < t.len() && position_total(
            t,
            rows[j].0 as int,
        ) >= 1 && summary_of(rows[j].1, t[rows[j].0 as int])
    &&& forall|j1: int, j2: int|
        #![trigger rows[j1], rows[j2]]
        0 <= j1 < j2 < rows.len() ==> rows[j1].0 < rows[j2].0
    &&& forall|p: int|
        0 <= p < t.len() && #[trigger] position_total(t, p) >= 1 ==> exists|j: int|
            0 <= j < rows.len() && (#[trigger] rows[j]).0 == p
}

/// Summarizes every observed position of a finished position table, in
/// ascending position order; a position that no record reached holds no
/// sample and is absent from the output.
pub fn position_summaries(table: &Vec<Vec<usize>>) -> (rows: Vec<(usize, FiveNumberSummary)>)
    requires
        table_wf(table.deep_view()),
    ensures
        rows_match(table.deep_view(), rows@),
{
    let ghost t = table.deep_view();
    let mut rows: Vec<(usize, FiveNumberSummary)> = Vec::new();
    let mut p: usize = 0;
    while p < table.len()
        invariant
            0 <= p <= t.len(),
            t == table.deep_view(),
            t.len() == table@.len(),
            table_wf(t),
            forall|j: int|
                0 <= j < rows@.len() ==> (#[trigger] rows@[j]).0 < p && position_total(
                    t,
                    rows@[j].0 as int,
                ) >= 1 && summary_of(rows@[j].1, t[rows@[j].0 as int]),
            forall|j1: int, j2: int|
                #![trigger rows@[j1], rows@[j2]]
                0 <= j1 < j2 < rows@.len() ==> rows@[j1].0 < rows@[j2].0,
            forall|q: int|
                0 <= q < p && #[trigger] position_total(t, q) >= 1 ==> exists|j: int|
                    0 <= j < rows@.len() && (#[trigger] rows@[j]).0 == q,
        decreases t.len() - p,
    {
        proof {
            assert(table@[p as int].deep_view() =~= table@[p as int]@);
            assert(t[p as int] == table@[p as int]@);
            assert(t[p as int].len() == ALPHABET_SIZE);
        }
        let hist = &table[p];
        let tot = total_count(hist);
        if tot >= 1 {
            let s = summarize(hist);
            let ghost before = rows@;
            rows.push((p, s));
            proof {
                assert forall|q: int|
                    0 <= q < p + 1 && #[trigger] position_total(t, q) >= 1 implies exists|j: int|
                    0 <= j < rows@.len() && (#[trigger] rows@[j]).0 == q by {
                    if q == p {
                        assert(rows@[before.len() as int].0 == q);
                    } else {
                        let j = choose|j: int|
                            0 <= j < before.len() && (#[trigger] before[j]).0 == q;
                        assert(rows@[j] == before[j]);
                    }
                }
            }
        }
        p = p + 1;
    }
    rows
}

/// Law: a histogram holding exactly one sample, at score `v`, summarizes
/// to all five values equal to `v` (in eighths: `8 * v`).
pub proof fn lemma_singleton_summary(s: FiveNumberSummary, h: Seq<usize>, v: int)
    requires
        summary_of(s, h),
        total(h) == 1,
        0 <= v < h.len(),
        h[v] >= 1,
    ensures
        s.lower_fence == 8 * v,
        s.q1 == 8 * v,
        s.median == 8 * v,
        s.q3 == 8 * v,
        s.upper_fence == 8 * v,
{
    lemma_singleton_samples(h, v);
    assert(samples(h)[0] == v);
}

} // verus!
