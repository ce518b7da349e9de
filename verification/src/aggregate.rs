//! Streaming aggregation of per-record quality scores into per-position
//! frequency histograms.
//!
//! The position table is a growable sequence of histograms keyed by read
//! position: a histogram is created on first observation of a position, and
//! positions are kept in ascending numeric order for downstream iteration.

use vstd::prelude::*;

use crate::histogram::{
    lemma_bucket_le_total, lemma_sum_prefix_all_zero, lemma_sum_prefix_update, sum_prefix, total,
    ALPHABET_SIZE, MAX_QUALITY_BYTE, QUALITY_OFFSET,
};

verus! {

/// Number of samples one record contributes to bucket (`pos`, `score`):
/// one exactly when the record covers `pos` and holds `score` there.
pub open spec fn record_count(rec: Seq<u8>, pos: int, score: int) -> int {
    if 0 <= pos < rec.len() && rec[pos] == score {
        1
    } else {
        0
    }
}

/// Number of samples the records of `batch` together contribute to bucket
/// (`pos`, `score`).
pub open spec fn batch_count(batch: Seq<Seq<u8>>, pos: int, score: int) -> int
    decreases batch.len(),
{
    if batch.len() == 0 {
        0
    } else {
        batch_count(batch.drop_last(), pos, score) + record_count(batch.last(), pos, score)
    }
}

/// Number of records of `batch` long enough to reach position `pos`.
pub open spec fn batch_reach(batch: Seq<Seq<u8>>, pos: int) -> int
    decreases batch.len(),
{
    if batch.len() == 0 {
        0
    } else {
        batch_reach(batch.drop_last(), pos) + (if 0 <= pos < batch.last().len() {
            1int
        } else {
            0int
        })
    }
}

/// Length of the longest record of `batch`.
pub open spec fn batch_longest(batch: Seq<Seq<u8>>) -> int
    decreases batch.len(),
{
    if batch.len() == 0 {
        0
    } else if batch.last().len() as int > batch_longest(batch.drop_last()) {
        batch.last().len() as int
    } else {
        batch_longest(batch.drop_last())
    }
}

/// Every score of every record of `batch` lies inside the alphabet.
pub open spec fn batch_scores_ok(batch: Seq<Seq<u8>>) -> bool {
    forall|r: int, i: int|
        0 <= r < batch.len() && 0 <= i < batch[r].len() ==> (#[trigger] batch[r][i] as int)
            < ALPHABET_SIZE
}

/// Count held by bucket `score` of the histogram for position `pos` in a
/// position table; zero outside the table.
pub open spec fn bucket_count(t: Seq<Seq<usize>>, pos: int, score: int) -> int {
    if 0 <= pos < t.len() && 0 <= score < t[pos].len() {
        t[pos][score] as int
    } else {
        0
    }
}

/// Total sample count of the histogram for position `pos`; zero outside
/// the table.
pub open spec fn position_total(t: Seq<Seq<usize>>, pos: int) -> int {
    if 0 <= pos < t.len() {
        total(t[pos])
    } else {
        0
    }
}

/// Well-formed position table: one histogram per position covering the
/// whole score alphabet, each with a total that fits the counter type.
pub open spec fn table_wf(t: Seq<Seq<usize>>) -> bool {
    forall|p: int|
        0 <= p < t.len() ==> (#[trigger] t[p]).len() == ALPHABET_SIZE && total(t[p]) <= usize::MAX
}

/// A histogram with every bucket at zero.
pub open spec fn zero_histogram() -> Seq<usize> {
    Seq::new(ALPHABET_SIZE as nat, |_s: int| 0usize)
}

/// Accumulates per-record quality scores into one frequency histogram per
/// read position, never storing raw samples. Also carries the flag telling
/// whether some record of the stream could not be read at all.
pub struct QualityAggregator {
    table: Vec<Vec<usize>>,
    unreadable: bool,
}

impl View for QualityAggregator {
    type V = Seq<Seq<usize>>;

    closed spec fn view(&self) -> Seq<Seq<usize>> {
        self.table.deep_view()
    }
}

impl QualityAggregator {
    /// True when at least one record of the stream was reported unreadable.
    pub closed spec fn spec_saw_unreadable(&self) -> bool {
        self.unreadable
    }

    /// Creates an aggregator with an empty position table.
    pub fn new() -> (a: Self)
        ensures
            a@.len() == 0,
            !a.spec_saw_unreadable(),
            table_wf(a@),
    {
        QualityAggregator { table: Vec::new(), unreadable: false }
    }

    /// Records one sample: increments bucket `score` of the histogram for
    /// `pos`, creating empty histograms up to `pos` on first observation of
    /// a position. Scores outside the alphabet are a decoding defect of the
    /// caller and are excluded outright.
    pub fn observe(&mut self, pos: usize, score: u8)
        requires
            table_wf(old(self)@),
            (score as int) < ALPHABET_SIZE,
            pos < usize::MAX,
            position_total(old(self)@, pos as int) < usize::MAX,
        ensures
            table_wf(final(self)@),
            final(self).spec_saw_unreadable() == old(self).spec_saw_unreadable(),
            final(self)@.len() == (if (pos as int) < old(self)@.len() {
                old(self)@.len() as int
            } else {
                pos + 1
            }),
            forall|p: int, s: int|
                #![trigger bucket_count(final(self)@, p, s)]
                bucket_count(final(self)@, p, s) == bucket_count(old(self)@, p, s) + (if p == pos
                    && s == score {
                    1int
                } else {
                    0int
                }),
            forall|p: int|
                #![trigger position_total(final(self)@, p)]
                position_total(final(self)@, p) == position_total(old(self)@, p) + (if p == pos {
                    1int
                } else {
                    0int
                }),
    {
        let ghost t0 = self.table.deep_view();
        let ghost u0 = self.unreadable;
        while self.table.len() <= pos
            invariant
                table_wf(self.table.deep_view()),
                self.unreadable == u0,
                pos < usize::MAX,
                self.table.deep_view().len() >= t0.len(),
                self.table.deep_view().len() <= pos + 1 || self.table.deep_view().len()
                    == t0.len(),
                forall|p: int, s: int|
                    #![trigger bucket_count(self.table.deep_view(), p, s)]
                    bucket_count(self.table.deep_view(), p, s) == bucket_count(t0, p, s),
                forall|p: int|
                    #![trigger position_total(self.table.deep_view(), p)]
                    position_total(self.table.deep_view(), p) == position_total(t0, p),
            decreases pos + 1 - self.table.len(),
        {
            let ghost before = self.table.deep_view();
            let row = new_histogram();
            self.table.push(row);
            proof {
                let after = self.table.deep_view();
                assert(row.deep_view() =~= row@);
                assert(after =~= before.push(row@));
                lemma_sum_prefix_all_zero(row@, row@.len() as int);
                assert forall|p: int, s: int|
                    #![trigger bucket_count(after, p, s)]
                    bucket_count(after, p, s) == bucket_count(t0, p, s) by {
                    if p < before.len() {
                        assert(bucket_count(after, p, s) == bucket_count(before, p, s));
                    } else if p == before.len() {
                        assert(bucket_count(after, p, s) == 0);
                        assert(bucket_count(t0, p, s) == 0);
                    }
                }
                assert forall|p: int|
                    #![trigger position_total(after, p)]
                    position_total(after, p) == position_total(t0, p) by {
                    if p < before.len() {
                        assert(position_total(after, p) == position_total(before, p));
                    } else if p == before.len() {
                        assert(total(after[p]) == 0);
                        assert(position_total(t0, p) == 0);
                    }
                }
            }
        }
        let ghost grown = self.table.deep_view();
        proof {
            assert(pos < self.table@.len());
            assert(grown[pos as int].len() == ALPHABET_SIZE);
            assert(grown[pos as int] =~= self.table@[pos as int]@);
        }
        let c: usize = self.table[pos][score as usize];
        proof {
            assert(c == grown[pos as int][score as int]);
            lemma_bucket_le_total(grown[pos as int], score as int);
            assert(total(grown[pos as int]) == position_total(grown, pos as int));
            assert(position_total(t0, pos as int) < usize::MAX);
            assert(c < usize::MAX);
        }
        self.table[pos][score as usize] = c + 1;
        proof {
            let after = self.table.deep_view();
            assert(after =~~= grown.update(
                pos as int,
                grown[pos as int].update(score as int, (c + 1) as usize),
            ));
            lemma_sum_prefix_update(grown[pos as int], score as int, (c + 1) as usize, ALPHABET_SIZE as int);
            assert forall|p: int, s: int|
                #![trigger bucket_count(after, p, s)]
                bucket_count(after, p, s) == bucket_count(t0, p, s) + (if p == pos && s == score {
                    1int
                } else {
                    0int
                }) by {
                assert(bucket_count(grown, p, s) == bucket_count(t0, p, s));
                assert(after.len() == grown.len());
                if p == pos {
                    assert(after[p] == grown[p].update(score as int, (c + 1) as usize));
                    assert(grown[p].len() == ALPHABET_SIZE);
                } else if 0 <= p < grown.len() {
                    assert(after[p] == grown[p]);
                }
            }
            assert forall|p: int|
                #![trigger position_total(after, p)]
                position_total(after, p) == position_total(t0, p) + (if p == pos {
                    1int
                } else {
                    0int
                }) by {
                assert(position_total(grown, p) == position_total(t0, p));
                assert(after.len() == grown.len());
                if p == pos {
                    assert(after[p] == grown[p].update(score as int, (c + 1) as usize));
                    assert(total(after[p]) == total(grown[p]) + 1);
                } else if 0 <= p < grown.len() {
                    assert(after[p] == grown[p]);
                }
            }
        }
    }

    /// Records one whole record: observes score `qualities[i]` at read
    /// position `i` for every index of the record.
    pub fn observe_record(&mut self, qualities: &Vec<u8>)
        requires
            table_wf(old(self)@),
            forall|i: int|
                0 <= i < qualities@.len() ==> (#[trigger] qualities@[i] as int) < ALPHABET_SIZE,
            forall|p: int|
                0 <= p < qualities@.len() ==> #[trigger] position_total(old(self)@, p)
                    < usize::MAX,
        ensures
            table_wf(final(self)@),
            final(self).spec_saw_unreadable() == old(self).spec_saw_unreadable(),
            final(self)@.len() == (if qualities@.len() > old(self)@.len() {
                qualities@.len() as int
            } else {
                old(self)@.len() as int
            }),
            forall|p: int, s: int|
                #![trigger bucket_count(final(self)@, p, s)]
                bucket_count(final(self)@, p, s) == bucket_count(old(self)@, p, s) + record_count(
                    qualities@,
                    p,
                    s,
                ),
            forall|p: int|
                #![trigger position_total(final(self)@, p)]
                position_total(final(self)@, p) == position_total(old(self)@, p) + (if 0 <= p
                    < qualities@.len() {
                    1int
                } else {
                    0int
                }),
    {
        let ghost t0 = self@;
        let mut i: usize = 0;
        while i < qualities.len()
            invariant
                0 <= i <= qualities@.len(),
                table_wf(self@),
                self.spec_saw_unreadable() == old(self).spec_saw_unreadable(),
                forall|k: int|
                    0 <= k < qualities@.len() ==> (#[trigger] qualities@[k] as int)
                        < ALPHABET_SIZE,
                forall|p: int|
                    0 <= p < qualities@.len() ==> #[trigger] position_total(t0, p) < usize::MAX,
                self@.len() == (if i > t0.len() {
                    i as int
                } else {
                    t0.len() as int
                }),
                forall|p: int, s: int|
                    #![trigger bucket_count(self@, p, s)]
                    bucket_count(self@, p, s) == bucket_count(t0, p, s) + (if 0 <= p < i
                        && qualities@[p] == s {
                        1int
                    } else {
                        0int
                    }),
                forall|p: int|
                    #![trigger position_total(self@, p)]
                    position_total(self@, p) == position_total(t0, p) + (if 0 <= p < i {
                        1int
                    } else {
                        0int
                    }),
            decreases qualities@.len() - i,
        {
            let q = qualities[i];
            self.observe(i, q);
            i = i + 1;
        }
    }

    /// Records a whole batch of records, in order.
    pub fn observe_batch(&mut self, records: &Vec<Vec<u8>>)
        requires
            table_wf(old(self)@),
            batch_scores_ok(records.deep_view()),
            forall|p: int|
                #[trigger] position_total(old(self)@, p) + batch_reach(records.deep_view(), p)
                    <= usize::MAX,
        ensures
            table_wf(final(self)@),
            final(self).spec_saw_unreadable() == old(self).spec_saw_unreadable(),
            final(self)@.len() == (if batch_longest(records.deep_view()) > old(self)@.len() {
                batch_longest(records.deep_view())
            } else {
                old(self)@.len() as int
            }),
            forall|p: int, s: int|
                #![trigger bucket_count(final(self)@, p, s)]
                bucket_count(final(self)@, p, s) == bucket_count(old(self)@, p, s) + batch_count(
                    records.deep_view(),
                    p,
                    s,
                ),
            forall|p: int|
                #![trigger position_total(final(self)@, p)]
                position_total(final(self)@, p) == position_total(old(self)@, p) + batch_reach(
                    records.deep_view(),
                    p,
                ),
    {
        let ghost t0 = self@;
        let ghost batch = records.deep_view();
        let mut r: usize = 0;
        while r < records.len()
            invariant
                0 <= r <= batch.len(),
                batch == records.deep_view(),
                batch.len() == records@.len(),
                table_wf(self@),
                self.spec_saw_unreadable() == old(self).spec_saw_unreadable(),
                batch_scores_ok(batch),
                forall|p: int|
                    #[trigger] position_total(t0, p) + batch_reach(batch, p) <= usize::MAX,
                self@.len() == (if batch_longest(batch.take(r as int)) > t0.len() {
                    batch_longest(batch.take(r as int))
                } else {
                    t0.len() as int
                }),
                forall|p: int, s: int|
                    #![trigger bucket_count(self@, p, s)]
                    bucket_count(self@, p, s) == bucket_count(t0, p, s) + batch_count(
                        batch.take(r as int),
                        p,
                        s,
                    ),
                forall|p: int|
                    #![trigger position_total(self@, p)]
                    position_total(self@, p) == position_total(t0, p) + batch_reach(
                        batch.take(r as int),
                        p,
                    ),
            decreases batch.len() - r,
        {
            let rec = &records[r];
            proof {
                assert(rec.deep_view() =~= rec@);
                assert(batch[r as int] == rec@);
                lemma_batch_take_step(batch, r as int);
                assert forall|p: int|
                    0 <= p < rec@.len() implies #[trigger] position_total(self@, p)
                    < usize::MAX by {
                    lemma_batch_reach_take_le(batch, r as int + 1, p);
                    assert(batch_reach(batch.take(r as int + 1), p) == batch_reach(
                        batch.take(r as int),
                        p,
                    ) + 1);
                }
            }
            self.observe_record(rec);
            proof {
                lemma_batch_take_step(batch, r as int);
            }
            r = r + 1;
        }
        proof {
            assert(batch.take(batch.len() as int) =~= batch);
        }
    }

    /// Notes that one record of the stream could not be read; the position
    /// table is untouched.
    pub fn note_unreadable(&mut self)
        ensures
            final(self)@ == old(self)@,
            final(self).spec_saw_unreadable(),
    {
        self.unreadable = true;
    }

    /// Reports whether some record of the stream was noted unreadable.
    pub fn saw_unreadable(&self) -> (b: bool)
        ensures
            b == self.spec_saw_unreadable(),
    {
        self.unreadable
    }

    /// Consumes the aggregator and yields the finished position table
    /// together with the unreadable-record flag.
    pub fn finish(self) -> (r: (Vec<Vec<usize>>, bool))
        ensures
            r.0.deep_view() == self@,
            r.1 == self.spec_saw_unreadable(),
    {
        (self.table, self.unreadable)
    }
}

/// Taking one more record extends the batch contributions by exactly that
/// record's.
proof fn lemma_batch_take_step(batch: Seq<Seq<u8>>, i: int)
    requires
        0 <= i < batch.len(),
    ensures
        forall|p: int, s: int|
            #![trigger batch_count(batch.take(i + 1), p, s)]
            batch_count(batch.take(i + 1), p, s) == batch_count(batch.take(i), p, s)
                + record_count(batch[i], p, s),
        forall|p: int|
            #![trigger batch_reach(batch.take(i + 1), p)]
            batch_reach(batch.take(i + 1), p) == batch_reach(batch.take(i), p) + (if 0 <= p
                < batch[i].len() {
                1int
            } else {
                0int
            }),
        batch_longest(batch.take(i + 1)) == (if batch[i].len() as int > batch_longest(
            batch.take(i),
        ) {
            batch[i].len() as int
        } else {
            batch_longest(batch.take(i))
        }),
{
    assert(batch.take(i + 1).drop_last() =~= batch.take(i));
    assert(batch.take(i + 1).last() == batch[i]);
}

/// A prefix of a batch reaches any position at most as often as the whole
/// batch does.
proof fn lemma_batch_reach_take_le(batch: Seq<Seq<u8>>, i: int, p: int)
    requires
        0 <= i <= batch.len(),
    ensures
        batch_reach(batch.take(i), p) <= batch_reach(batch, p),
    decreases batch.len() - i,
{
    if i == batch.len() {
        assert(batch.take(i) =~= batch);
    } else {
        lemma_batch_take_step(batch, i);
        lemma_batch_reach_take_le(batch, i + 1, p);
    }
}

/// Element-wise sums carry over to prefix sums: a histogram formed by
/// adding two histograms bucket for bucket holds the sum of their samples.
proof fn lemma_sum_prefix_add(ha: Seq<usize>, hb: Seq<usize>, hm: Seq<usize>, i: int)
    requires
        0 <= i <= ha.len(),
        i <= hb.len(),
        i <= hm.len(),
        forall|s: int| 0 <= s < i ==> #[trigger] hm[s] == ha[s] + hb[s],
    ensures
        sum_prefix(hm, i) == sum_prefix(ha, i) + sum_prefix(hb, i),
    decreases i,
{
    if i > 0 {
        lemma_sum_prefix_add(ha, hb, hm, i - 1);
    }
}

/// Merges two finished position tables by element-wise counter addition:
/// the merged table holds, in every bucket, the sum of the two tables'
/// counts — aggregating a stream in shards and merging gives the same
/// table as one pass.
pub fn merge_tables(a: &Vec<Vec<usize>>, b: &Vec<Vec<usize>>) -> (m: Vec<Vec<usize>>)
    requires
        table_wf(a.deep_view()),
        table_wf(b.deep_view()),
        forall|p: int|
            #[trigger] position_total(a.deep_view(), p) + position_total(b.deep_view(), p)
                <= usize::MAX,
    ensures
        table_wf(m.deep_view()),
        m.deep_view().len() == (if a.deep_view().len() > b.deep_view().len() {
            a.deep_view().len() as int
        } else {
            b.deep_view().len() as int
        }),
        forall|p: int, s: int|
            #![trigger bucket_count(m.deep_view(), p, s)]
            bucket_count(m.deep_view(), p, s) == bucket_count(a.deep_view(), p, s) + bucket_count(
                b.deep_view(),
                p,
                s,
            ),
        forall|p: int|
            #![trigger position_total(m.deep_view(), p)]
            position_total(m.deep_view(), p) == position_total(a.deep_view(), p) + position_total(
                b.deep_view(),
                p,
            ),
{
    let ghost adv = a.deep_view();
    let ghost bdv = b.deep_view();
    let longer: usize = if a.len() > b.len() {
        a.len()
    } else {
        b.len()
    };
    let mut m: Vec<Vec<usize>> = Vec::new();
    let mut p: usize = 0;
    while p < longer
        invariant
            0 <= p <= longer,
            adv == a.deep_view(),
            bdv == b.deep_view(),
            adv.len() == a@.len(),
            bdv.len() == b@.len(),
            longer == (if adv.len() > bdv.len() {
                adv.len() as int
            } else {
                bdv.len() as int
            }),
            table_wf(adv),
            table_wf(bdv),
            forall|q: int|
                #[trigger] position_total(adv, q) + position_total(bdv, q) <= usize::MAX,
            m.deep_view().len() == p,
            table_wf(m.deep_view()),
            forall|q: int, s: int|
                #![trigger bucket_count(m.deep_view(), q, s)]
                q < p ==> bucket_count(m.deep_view(), q, s) == bucket_count(adv, q, s)
                    + bucket_count(bdv, q, s),
            forall|q: int|
                #![trigger position_total(m.deep_view(), q)]
                q < p ==> position_total(m.deep_view(), q) == position_total(adv, q)
                    + position_total(bdv, q),
        decreases longer - p,
    {
        let ghost ha: Seq<usize> = if (p as int) < adv.len() {
            adv[p as int]
        } else {
            zero_histogram()
        };
        let ghost hb: Seq<usize> = if (p as int) < bdv.len() {
            bdv[p as int]
        } else {
            zero_histogram()
        };
        proof {
            lemma_sum_prefix_all_zero(zero_histogram(), ALPHABET_SIZE as int);
            if (p as int) < adv.len() {
                assert(adv[p as int] =~= a@[p as int]@);
            }
            if (p as int) < bdv.len() {
                assert(bdv[p as int] =~= b@[p as int]@);
            }
            assert(total(ha) == position_total(adv, p as int));
            assert(total(hb) == position_total(bdv, p as int));
        }
        let mut row: Vec<usize> = Vec::new();
        let mut s: usize = 0;
        while s < ALPHABET_SIZE
            invariant
                0 <= s <= ALPHABET_SIZE,
                row@.len() == s,
                ha.len() == ALPHABET_SIZE,
                hb.len() == ALPHABET_SIZE,
                total(ha) + total(hb) <= usize::MAX,
                (p as int) < adv.len() ==> ha == a.deep_view()[p as int] && (p as int) < a@.len(),
                (p as int) >= adv.len() ==> ha == zero_histogram(),
                (p as int) < bdv.len() ==> hb == b.deep_view()[p as int] && (p as int) < b@.len(),
                (p as int) >= bdv.len() ==> hb == zero_histogram(),
                adv == a.deep_view(),
                bdv == b.deep_view(),
                forall|k: int| 0 <= k < s ==> #[trigger] row@[k] == ha[k] + hb[k],
            decreases ALPHABET_SIZE - s,
        {
            let va: usize = if p < a.len() {
                proof {
                    assert(a@[p as int].deep_view() =~= a@[p as int]@);
                }
                a[p][s]
            } else {
                0
            };
            let vb: usize = if p < b.len() {
                proof {
                    assert(b@[p as int].deep_view() =~= b@[p as int]@);
                }
                b[p][s]
            } else {
                0
            };
            proof {
                lemma_bucket_le_total(ha, s as int);
                lemma_bucket_le_total(hb, s as int);
                assert(va == ha[s as int]);
                assert(vb == hb[s as int]);
            }
            row.push(va + vb);
            s = s + 1;
        }
        proof {
            lemma_sum_prefix_add(ha, hb, row@, ALPHABET_SIZE as int);
        }
        let ghost before = m.deep_view();
        m.push(row);
        proof {
            let after = m.deep_view();
            assert(row.deep_view() =~= row@);
            assert(after =~= before.push(row@));
            assert forall|q: int, t: int|
                q < p + 1 implies #[trigger] bucket_count(after, q, t) == bucket_count(adv, q, t)
                + bucket_count(bdv, q, t) by {
                if q < before.len() {
                    assert(bucket_count(after, q, t) == bucket_count(before, q, t));
                } else if q == before.len() {
                    if 0 <= t < ALPHABET_SIZE {
                        assert(after[q][t] == ha[t] + hb[t]);
                    }
                }
            }
            assert forall|q: int|
                q < p + 1 implies #[trigger] position_total(after, q) == position_total(adv, q)
                + position_total(bdv, q) by {
                if 0 <= q < before.len() {
                    assert(after[q] == before[q]);
                    assert(position_total(after, q) == position_total(before, q));
                } else if q == before.len() {
                    assert(total(after[q]) == total(ha) + total(hb));
                }
            }
        }
        p = p + 1;
    }
    proof {
        assert forall|q: int|
            #![trigger position_total(m.deep_view(), q)]
            position_total(m.deep_view(), q) == position_total(adv, q) + position_total(
                bdv,
                q,
            ) by {
            if q >= p {
                assert(position_total(m.deep_view(), q) == 0);
                assert(position_total(adv, q) == 0);
                assert(position_total(bdv, q) == 0);
            }
        }
        assert forall|q: int, s: int|
            #![trigger bucket_count(m.deep_view(), q, s)]
            bucket_count(m.deep_view(), q, s) == bucket_count(adv, q, s) + bucket_count(
                bdv,
                q,
                s,
            ) by {
            if q >= p {
                assert(bucket_count(m.deep_view(), q, s) == 0);
                assert(bucket_count(adv, q, s) == 0);
                assert(bucket_count(bdv, q, s) == 0);
            }
        }
    }
    m
}

/// Law: batch contributions are element-wise additive — concatenating two
/// batches contributes, to every bucket, the sum of what each batch
/// contributes alone.
pub proof fn lemma_batch_count_concat(a: Seq<Seq<u8>>, b: Seq<Seq<u8>>, pos: int, score: int)
    ensures
        batch_count(a + b, pos, score) == batch_count(a, pos, score) + batch_count(b, pos, score),
    decreases b.len(),
{
    if b.len() == 0 {
        assert(a + b =~= a);
    } else {
        lemma_batch_count_concat(a, b.drop_last(), pos, score);
        assert((a + b).drop_last() =~= a + b.drop_last());
        assert((a + b).last() == b.last());
    }
}

/// Law: merge commutativity — two record batches aggregated in either
/// order contribute identical position histograms, bucket for bucket.
pub proof fn lemma_batch_order_irrelevant(a: Seq<Seq<u8>>, b: Seq<Seq<u8>>)
    ensures
        forall|pos: int, score: int|
            #![trigger batch_count(a + b, pos, score)]
            batch_count(a + b, pos, score) == batch_count(b + a, pos, score),
{
    assert forall|pos: int, score: int|
        #![trigger batch_count(a + b, pos, score)]
        batch_count(a + b, pos, score) == batch_count(b + a, pos, score) by {
        lemma_batch_count_concat(a, b, pos, score);
        lemma_batch_count_concat(b, a, pos, score);
    }
}

/// Decodes one raw encoded quality byte into a score by removing the fixed
/// offset.
pub fn decode_quality(raw: u8) -> (score: u8)
    requires
        QUALITY_OFFSET <= raw <= MAX_QUALITY_BYTE,
    ensures
        score == raw - QUALITY_OFFSET,
        (score as int) < ALPHABET_SIZE,
{
    raw - QUALITY_OFFSET
}

/// Decodes a whole record of raw encoded quality bytes, rejecting a record
/// holding any byte outside the encodable range.
pub fn decode_record(raw: &Vec<u8>) -> (r: Option<Vec<u8>>)
    ensures
        (r is Some) == (forall|i: int|
            0 <= i < raw@.len() ==> QUALITY_OFFSET <= #[trigger] raw@[i] <= MAX_QUALITY_BYTE),
        r matches Some(dec) ==> dec@.len() == raw@.len() && (forall|i: int|
            0 <= i < raw@.len() ==> #[trigger] dec@[i] == raw@[i] - QUALITY_OFFSET && (
            dec@[i] as int) < ALPHABET_SIZE),
{
    let mut dec: Vec<u8> = Vec::new();
    let mut i: usize = 0;
    while i < raw.len()
        invariant
            0 <= i <= raw@.len(),
            dec@.len() == i,
            forall|k: int| 0 <= k < i ==> QUALITY_OFFSET <= #[trigger] raw@[k] <= MAX_QUALITY_BYTE,
            forall|k: int|
                0 <= k < i ==> #[trigger] dec@[k] == raw@[k] - QUALITY_OFFSET && (dec@[k] as int)
                    < ALPHABET_SIZE,
        decreases raw@.len() - i,
    {
        let b = raw[i];
        if b < QUALITY_OFFSET || b > MAX_QUALITY_BYTE {
            return None;
        }
        dec.push(b - QUALITY_OFFSET);
        i = i + 1;
    }
    Some(dec)
}

/// Builds one empty histogram covering the whole score alphabet.
fn new_histogram() -> (h: Vec<usize>)
    ensures
        h@ =~= zero_histogram(),
{
    let mut h: Vec<usize> = Vec::new();
    let mut i: usize = 0;
    while i < ALPHABET_SIZE
        invariant
            0 <= i <= ALPHABET_SIZE,
            h@.len() == i,
            forall|s: int| 0 <= s < i ==> h@[s] == 0,
        decreases ALPHABET_SIZE - i,
    {
        h.push(0);
        i = i + 1;
    }
    h
}

} // verus!
