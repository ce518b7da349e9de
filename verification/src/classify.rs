//! The quality assessment classifier: folds per-position medians into one
//! pass/warn/fail verdict against the fixed thresholds.

use vstd::prelude::*;
use vstd::string::StringExecFns;

use crate::summary::FiveNumberSummary;

verus! {

/// Median threshold, in eighths of a score, at or below which a position
/// fails the run (a median of 20.0 scores).
pub const FAIL_MEDIAN_EIGHTHS: i64 = 160;

/// Median threshold, in eighths of a score, at or below which a position
/// puts the run on warning (a median of 25.0 scores).
pub const WARN_MEDIAN_EIGHTHS: i64 = 200;

/// Overall run verdict. Fail is absorbing under the fold that produces it:
/// once reached it is never left.
#[derive(Clone, Copy, Debug, PartialEq, Eq, Structural)]
pub enum QualityVerdict {
    Pass,
    Warn,
    Fail,
}

impl QualityVerdict {
    /// The fixed label under which this verdict is reported.
    pub fn label(&self) -> (r: String)
        ensures
            *self is Pass ==> r@ == "pass"@,
            *self is Warn ==> r@ == "warn"@,
            *self is Fail ==> r@ == "fail"@,
    {
        match self {
            QualityVerdict::Pass => String::from_str("pass"),
            QualityVerdict::Warn => String::from_str("warn"),
            QualityVerdict::Fail => String::from_str("fail"),
        }
    }
}

/// Some summarized position has a median at or below `bound` eighths.
pub open spec fn has_median_at_most(rows: Seq<(usize, FiveNumberSummary)>, bound: int) -> bool {
    exists|j: int| 0 <= j < rows.len() && (#[trigger] rows[j]).1.median <= bound
}

/// The verdict a summary sequence folds to: fail if any position's median
/// is at or below the fail threshold; else warn if any is at or below the
/// warn threshold; else pass. Depends only on which medians occur, so it
/// is independent of the order of the rows.
pub open spec fn verdict_of(rows: Seq<(usize, FiveNumberSummary)>) -> QualityVerdict {
    if has_median_at_most(rows, FAIL_MEDIAN_EIGHTHS as int) {
        QualityVerdict::Fail
    } else if has_median_at_most(rows, WARN_MEDIAN_EIGHTHS as int) {
        QualityVerdict::Warn
    } else {
        QualityVerdict::Pass
    }
}

/// Appending one row either leaves "a median at or below `bound` occurs"
/// unchanged or makes it true through the new row.
proof fn lemma_has_median_push(
    rows: Seq<(usize, FiveNumberSummary)>,
    row: (usize, FiveNumberSummary),
    bound: int,
)
    ensures
        has_median_at_most(rows.push(row), bound) == (has_median_at_most(rows, bound)
            || row.1.median <= bound),
{
    let ext = rows.push(row);
    if has_median_at_most(ext, bound) {
        let j = choose|j: int| 0 <= j < ext.len() && (#[trigger] ext[j]).1.median <= bound;
        if j < rows.len() {
            assert(ext[j] == rows[j]);
            assert(has_median_at_most(rows, bound));
        } else {
            assert(ext[j] == row);
        }
    }
    if has_median_at_most(rows, bound) {
        let j = choose|j: int| 0 <= j < rows.len() && (#[trigger] rows[j]).1.median <= bound;
        assert(ext[j] == rows[j]);
        assert(has_median_at_most(ext, bound));
    }
    if row.1.median <= bound {
        assert(ext[rows.len() as int] == row);
        assert(has_median_at_most(ext, bound));
    }
}

/// Folds the per-position summaries into the run verdict.
pub fn classify(rows: &Vec<(usize, FiveNumberSummary)>) -> (v: QualityVerdict)
    ensures
        v == verdict_of(rows@),
{
    let mut verdict = QualityVerdict::Pass;
    let mut i: usize = 0;
    while i < rows.len()
        invariant
            0 <= i <= rows@.len(),
            verdict == verdict_of(rows@.take(i as int)),
        decreases rows@.len() - i,
    {
        let m = rows[i].1.median;
        if m <= FAIL_MEDIAN_EIGHTHS {
            verdict = QualityVerdict::Fail;
        } else if m <= WARN_MEDIAN_EIGHTHS && verdict != QualityVerdict::Fail {
            verdict = QualityVerdict::Warn;
        }
        proof {
            assert(rows@.take(i as int + 1) =~= rows@.take(i as int).push(rows@[i as int]));
            lemma_has_median_push(rows@.take(i as int), rows@[i as int], FAIL_MEDIAN_EIGHTHS as int);
            lemma_has_median_push(rows@.take(i as int), rows@[i as int], WARN_MEDIAN_EIGHTHS as int);
        }
        i = i + 1;
    }
    proof {
        assert(rows@.take(rows@.len() as int) =~= rows@);
    }
    verdict
}

/// Law: classification is monotone in the fail direction — appending a
/// position whose median is at or below the fail threshold yields the fail
/// verdict, whatever the sequence held before.
pub proof fn lemma_fail_is_absorbing(
    rows: Seq<(usize, FiveNumberSummary)>,
    row: (usize, FiveNumberSummary),
)
    requires
        row.1.median <= FAIL_MEDIAN_EIGHTHS as int,
    ensures
        verdict_of(rows.push(row)) == QualityVerdict::Fail,
{
    lemma_has_median_push(rows, row, FAIL_MEDIAN_EIGHTHS as int);
}

/// Law: appending a position whose median is above the warn threshold
/// never changes the verdict; in particular an existing fail or warn
/// verdict stands.
pub proof fn lemma_good_position_keeps_verdict(
    rows: Seq<(usize, FiveNumberSummary)>,
    row: (usize, FiveNumberSummary),
)
    requires
        row.1.median > WARN_MEDIAN_EIGHTHS as int,
    ensures
        verdict_of(rows.push(row)) == verdict_of(rows),
{
    lemma_has_median_push(rows, row, FAIL_MEDIAN_EIGHTHS as int);
    lemma_has_median_push(rows, row, WARN_MEDIAN_EIGHTHS as int);
}

} // verus!
