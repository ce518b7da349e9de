//! Frequency histograms over the bounded quality-score alphabet, and the
//! mathematical model relating a histogram to the sorted sequence of samples
//! it summarizes.

use vstd::prelude::*;

verus! {

/// Number of distinct quality scores: a score ranges over `0..=93`.
pub const ALPHABET_SIZE: usize = 94;

/// Smallest raw encoded quality byte; decoding removes this fixed offset.
pub const QUALITY_OFFSET: u8 = 33;

/// Largest raw encoded quality byte that decodes into the alphabet.
pub const MAX_QUALITY_BYTE: u8 = 126;

/// Largest histogram length the order-statistics engine accepts; keeps its
/// fixed-point arithmetic (eighths of a score) comfortably inside `i64`.
pub const MAX_HISTOGRAM_LEN: usize = 0x100_0000;

/// Sum of the counts in the first `i` buckets of `h`.
pub open spec fn sum_prefix(h: Seq<usize>, i: int) -> int
    decreases i,
{
    if i <= 0 {
        0
    } else {
        sum_prefix(h, i - 1) + h[i - 1]
    }
}

/// Total number of samples recorded in histogram `h`.
pub open spec fn total(h: Seq<usize>) -> int {
    sum_prefix(h, h.len() as int)
}

/// The samples described by the first `i` buckets of `h`, in ascending
/// order: each score `s < i` repeated `h[s]` times.
pub open spec fn expand_prefix(h: Seq<usize>, i: int) -> Seq<int>
    decreases i,
{
    if i <= 0 {
        Seq::empty()
    } else {
        expand_prefix(h, i - 1) + Seq::new(h[i - 1] as nat, |_j: int| i - 1)
    }
}

/// The full sorted sample sequence of histogram `h`: the sequence obtained
/// by listing every observed score with its multiplicity, in ascending
/// order.
pub open spec fn samples(h: Seq<usize>) -> Seq<int> {
    expand_prefix(h, h.len() as int)
}

/// A sequence is sorted in ascending order.
pub open spec fn is_sorted(s: Seq<int>) -> bool {
    forall|k1: int, k2: int|
        #![trigger s[k1], s[k2]]
        0 <= k1 <= k2 < s.len() ==> s[k1] <= s[k2]
}

pub proof fn lemma_sum_prefix_monotone(h: Seq<usize>, i: int, j: int)
    requires
        0 <= i <= j,
    ensures
        sum_prefix(h, i) <= sum_prefix(h, j),
    decreases j,
{
    if i < j {
        lemma_sum_prefix_monotone(h, i, j - 1);
    }
}

pub proof fn lemma_sum_prefix_nonneg(h: Seq<usize>, i: int)
    requires
        0 <= i,
    ensures
        0 <= sum_prefix(h, i),
{
    lemma_sum_prefix_monotone(h, 0, i);
}

pub proof fn lemma_expand_prefix_len(h: Seq<usize>, i: int)
    requires
        0 <= i,
    ensures
        expand_prefix(h, i).len() == sum_prefix(h, i),
    decreases i,
{
    if i > 0 {
        lemma_expand_prefix_len(h, i - 1);
    }
}

/// Entries below the `i`-bucket boundary are unchanged by expanding further
/// buckets.
pub proof fn lemma_expand_prefix_stable(h: Seq<usize>, i: int, j: int, k: int)
    requires
        0 <= i <= j,
        0 <= k < sum_prefix(h, i),
    ensures
        expand_prefix(h, j)[k] == expand_prefix(h, i)[k],
    decreases j - i,
{
    lemma_expand_prefix_len(h, i);
    if i < j {
        lemma_expand_prefix_stable(h, i, j - 1, k);
        lemma_expand_prefix_len(h, j - 1);
        lemma_sum_prefix_monotone(h, i, j - 1);
    }
}

/// The samples with index in `[sum_prefix(h, b), sum_prefix(h, b + 1))` are
/// exactly the occurrences of score `b`.
pub proof fn lemma_sample_at(h: Seq<usize>, b: int, k: int)
    requires
        0 <= b < h.len(),
        sum_prefix(h, b) <= k < sum_prefix(h, b + 1),
    ensures
        0 <= k < total(h),
        samples(h)[k] == b,
{
    lemma_sum_prefix_nonneg(h, b);
    lemma_sum_prefix_monotone(h, b + 1, h.len() as int);
    lemma_expand_prefix_len(h, b);
    lemma_expand_prefix_len(h, b + 1);
    assert(expand_prefix(h, b + 1)[k] == b);
    lemma_expand_prefix_stable(h, b + 1, h.len() as int, k);
}

pub proof fn lemma_expand_prefix_sorted(h: Seq<usize>, i: int)
    requires
        0 <= i,
    ensures
        is_sorted(expand_prefix(h, i)),
        forall|k: int|
            0 <= k < expand_prefix(h, i).len() ==> #[trigger] expand_prefix(h, i)[k] < i,
    decreases i,
{
    if i > 0 {
        lemma_expand_prefix_sorted(h, i - 1);
        lemma_expand_prefix_len(h, i - 1);
        lemma_sum_prefix_nonneg(h, i - 1);
        let prev = expand_prefix(h, i - 1);
        let cur = expand_prefix(h, i);
        assert forall|k: int| 0 <= k < cur.len() implies #[trigger] cur[k] < i by {
            if k < prev.len() {
                assert(cur[k] == prev[k]);
            }
        }
        assert forall|k1: int, k2: int|
            #![trigger cur[k1], cur[k2]]
            0 <= k1 <= k2 < cur.len() implies cur[k1] <= cur[k2] by {
            if k2 < prev.len() {
                assert(cur[k1] == prev[k1] && cur[k2] == prev[k2]);
            } else {
                assert(cur[k2] == i - 1);
                if k1 < prev.len() {
                    assert(cur[k1] == prev[k1]);
                    assert(prev[k1] < i - 1 || prev[k1] == i - 1);
                } else {
                    assert(cur[k1] == i - 1);
                }
            }
        }
    }
}

/// The sorted sample sequence is indeed sorted, has one entry per recorded
/// sample, and every entry is a score of the histogram's alphabet.
pub proof fn lemma_samples_sorted(h: Seq<usize>)
    ensures
        is_sorted(samples(h)),
        samples(h).len() == total(h),
        forall|k: int| 0 <= k < samples(h).len() ==> 0 <= #[trigger] samples(h)[k] < h.len(),
{
    lemma_expand_prefix_sorted(h, h.len() as int);
    lemma_expand_prefix_len(h, h.len() as int);
    assert forall|k: int|
        0 <= k < samples(h).len() implies 0 <= #[trigger] samples(h)[k] < h.len() by {
        lemma_expand_prefix_nonneg_entries(h, h.len() as int, k);
    }
}

proof fn lemma_expand_prefix_nonneg_entries(h: Seq<usize>, i: int, k: int)
    requires
        0 <= i,
        0 <= k < expand_prefix(h, i).len(),
    ensures
        expand_prefix(h, i)[k] >= 0,
    decreases i,
{
    if i > 0 {
        lemma_expand_prefix_len(h, i - 1);
        lemma_sum_prefix_nonneg(h, i - 1);
        if k < expand_prefix(h, i - 1).len() {
            lemma_expand_prefix_nonneg_entries(h, i - 1, k);
        }
    }
}

/// Replacing the count of one bucket shifts every prefix sum that covers it
/// by the difference, and leaves shorter prefixes unchanged.
pub proof fn lemma_sum_prefix_update(h: Seq<usize>, s: int, v: usize, i: int)
    requires
        0 <= s < h.len(),
        0 <= i <= h.len(),
    ensures
        sum_prefix(h.update(s, v), i) == sum_prefix(h, i) + (if s < i {
            v - h[s]
        } else {
            0
        }),
    decreases i,
{
    if i > 0 {
        lemma_sum_prefix_update(h, s, v, i - 1);
    }
}

/// A histogram whose buckets are all zero holds no samples.
pub proof fn lemma_sum_prefix_all_zero(h: Seq<usize>, i: int)
    requires
        0 <= i <= h.len(),
        forall|b: int| 0 <= b < h.len() ==> h[b] == 0,
    ensures
        sum_prefix(h, i) == 0,
    decreases i,
{
    if i > 0 {
        lemma_sum_prefix_all_zero(h, i - 1);
    }
}

/// Sum of score times count over the first `i` buckets of `h`: the
/// numerator of the mean score.
pub open spec fn weighted_prefix(h: Seq<usize>, i: int) -> int
    decreases i,
{
    if i <= 0 {
        0
    } else {
        weighted_prefix(h, i - 1) + (i - 1) * h[i - 1]
    }
}

/// Sum of all samples' scores: dividing it by `total(h)` gives the mean
/// observed score.
pub open spec fn weighted_total(h: Seq<usize>) -> int {
    weighted_prefix(h, h.len() as int)
}

pub proof fn lemma_weighted_prefix_bound(h: Seq<usize>, i: int)
    requires
        0 <= i <= h.len(),
    ensures
        0 <= weighted_prefix(h, i),
        weighted_prefix(h, i) <= (h.len() - 1) * sum_prefix(h, i),
    decreases i,
{
    if i > 0 {
        lemma_weighted_prefix_bound(h, i - 1);
        lemma_sum_prefix_nonneg(h, i - 1);
        assert(0 <= (i - 1) * h[i - 1] && (i - 1) * h[i - 1] <= (h.len() - 1) * h[i - 1])
            by (nonlinear_arith)
            requires
                0 <= i - 1 <= h.len() - 1,
                h[i - 1] >= 0,
        ;
        assert((h.len() - 1) * sum_prefix(h, i) == (h.len() - 1) * sum_prefix(h, i - 1) + (h.len()
            - 1) * h[i - 1]) by (nonlinear_arith)
            requires
                sum_prefix(h, i) == sum_prefix(h, i - 1) + h[i - 1],
        ;
    }
}

/// Computes the sum of all samples' scores of `h`; the caller divides by
/// the total to obtain the mean score.
pub fn weighted_count_sum(h: &Vec<usize>) -> (r: u128)
    requires
        total(h@) <= usize::MAX,
        h@.len() <= MAX_HISTOGRAM_LEN,
    ensures
        r == weighted_total(h@),
{
    let mut acc: u128 = 0;
    let mut i: usize = 0;
    while i < h.len()
        invariant
            0 <= i <= h@.len(),
            h@.len() <= MAX_HISTOGRAM_LEN,
            total(h@) <= usize::MAX,
            acc == weighted_prefix(h@, i as int),
        decreases h@.len() - i,
    {
        proof {
            lemma_weighted_prefix_bound(h@, i as int);
            lemma_weighted_prefix_bound(h@, i as int + 1);
            lemma_sum_prefix_nonneg(h@, i as int + 1);
            lemma_sum_prefix_monotone(h@, i as int + 1, h@.len() as int);
            lemma_sum_prefix_nonneg(h@, h@.len() as int);
            assert((i as int) * (h@[i as int] as int) <= 0x100_0000 * 0xFFFF_FFFF_FFFF_FFFF)
                by (nonlinear_arith)
                requires
                    0 <= i as int <= 0x100_0000,
                    0 <= h@[i as int] <= 0xFFFF_FFFF_FFFF_FFFF,
            ;
            assert((h@.len() - 1) * sum_prefix(h@, i as int + 1) <= (h@.len() - 1) * total(h@))
                by (nonlinear_arith)
                requires
                    h@.len() >= 1,
                    0 <= sum_prefix(h@, i as int + 1) <= total(h@),
            ;
            assert((h@.len() - 1) * total(h@) <= 0x100_0000 * 0xFFFF_FFFF_FFFF_FFFF)
                by (nonlinear_arith)
                requires
                    0 <= h@.len() - 1 <= 0x100_0000,
                    0 <= total(h@) <= 0xFFFF_FFFF_FFFF_FFFF,
            ;
        }
        acc = acc + (i as u128) * (h[i] as u128);
        i = i + 1;
    }
    acc
}

/// No bucket holds more than the histogram's total.
pub proof fn lemma_bucket_le_total(h: Seq<usize>, s: int)
    requires
        0 <= s < h.len(),
    ensures
        h[s] <= total(h),
{
    lemma_sum_prefix_nonneg(h, s);
    lemma_sum_prefix_monotone(h, s + 1, h.len() as int);
}

/// Computes the total number of samples in `h`.
pub fn total_count(h: &Vec<usize>) -> (t: usize)
    requires
        total(h@) <= usize::MAX,
    ensures
        t == total(h@),
{
    let mut acc: usize = 0;
    let mut i: usize = 0;
    while i < h.len()
        invariant
            0 <= i <= h@.len(),
            acc == sum_prefix(h@, i as int),
            total(h@) <= usize::MAX,
        decreases h@.len() - i,
    {
        proof {
            lemma_sum_prefix_monotone(h@, i as int + 1, h@.len() as int);
            lemma_sum_prefix_nonneg(h@, i as int);
        }
        acc = acc + h[i];
        i = i + 1;
    }
    acc
}

} // verus!
