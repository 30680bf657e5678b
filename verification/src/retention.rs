//! Retention lifecycle summaries. Classification, pruning and narrowing are
//! storage writes the application performs; the summary each path reports is
//! computed here from the retention statistics read back afterwards.
use vstd::prelude::*;

verus! {

/// Per-class snapshot counts of one repo, as the storage reports them.
#[derive(Clone, Copy, PartialEq, Eq, Structural, Debug)]
pub struct RetentionStats {
    pub current: i64,
    pub parent: i64,
    pub baseline_auto: i64,
    pub baseline_user: i64,
    pub baseline_stamp: i64,
    pub prunable: i64,
    pub total: i64,
}

/// The outcome of one retention lifecycle run.
#[derive(Clone, Copy, PartialEq, Eq, Structural, Debug)]
pub struct LifecycleResult {
    /// Retention classification completed.
    pub classified: bool,
    /// Snapshots pruned (0 when no prune ran).
    pub pruned_count: i64,
    /// Snapshots classified prunable but not yet deleted.
    pub prunable_count: i64,
    /// Provenance-stamp marks narrowed to their stamp this run.
    pub narrowed_count: i64,
    /// Rows removed by that narrowing, cascades included.
    pub narrowed_rows: i64,
    /// Retention statistics after the run.
    pub stats: RetentionStats,
}

/// `v` clamped into the range of `i64`.
pub open spec fn clamp_i64(v: int) -> i64 {
    if v > i64::MAX {
        i64::MAX
    } else if v < i64::MIN {
        i64::MIN
    } else {
        v as i64
    }
}

/// `x - y`, saturating at the bounds of `i64`.
pub fn saturating_sub_i64(x: i64, y: i64) -> (r: i64)
    ensures
        r == clamp_i64(x - y),
{
    match x.checked_sub(y) {
        Some(v) => v,
        None => if y < 0 {
            i64::MAX
        } else {
            i64::MIN
        },
    }
}

/// `total` less each class that is never pruned, one saturating step at a time.
pub open spec fn prunable_spec(s: RetentionStats) -> i64 {
    clamp_i64(
        clamp_i64(
            clamp_i64(clamp_i64(clamp_i64(s.total - s.current) - s.parent) - s.baseline_auto)
                - s.baseline_user,
        ) - s.baseline_stamp,
    )
}

/// The snapshots not held by any protected class (current, parent, automatic
/// baseline, row-retaining mark, stamp mark).
pub fn prunable_count(stats: &RetentionStats) -> (r: i64)
    ensures
        r == prunable_spec(*stats),
{
    let a = saturating_sub_i64(stats.total, stats.current);
    let b = saturating_sub_i64(a, stats.parent);
    let c = saturating_sub_i64(b, stats.baseline_auto);
    let d = saturating_sub_i64(c, stats.baseline_user);
    saturating_sub_i64(d, stats.baseline_stamp)
}

/// The foreground summary: classification ran, nothing was pruned or
/// narrowed, and the prunable count tells the reader maintenance is due.
pub fn classified_only(stats: RetentionStats) -> (r: LifecycleResult)
    ensures
        r == (LifecycleResult {
            classified: true,
            pruned_count: 0,
            prunable_count: prunable_spec(stats),
            narrowed_count: 0,
            narrowed_rows: 0,
            stats,
        }),
{
    let prunable_count = prunable_count(&stats);
    LifecycleResult {
        classified: true,
        pruned_count: 0,
        prunable_count,
        narrowed_count: 0,
        narrowed_rows: 0,
        stats,
    }
}

/// The sum of a list of row counts.
pub open spec fn sum_rows(s: Seq<i64>) -> int
    decreases s.len(),
{
    if s.len() == 0 {
        0
    } else {
        sum_rows(s.drop_last()) + s.last()
    }
}

/// Every running total of `s` fits in an `i64`.
pub open spec fn running_sums_fit(s: Seq<i64>) -> bool {
    forall|k: int| 0 <= k <= s.len() ==> i64::MIN <= #[trigger] sum_rows(s.subrange(0, k)) <= i64::MAX
}

/// The maintenance summary: the snapshots pruned, nothing left prunable, and
/// the narrowed marks with the rows each removed.
pub fn maintained(pruned_count: i64, narrowed_rows: &Vec<i64>, stats: RetentionStats) -> (r: LifecycleResult)
    requires
        narrowed_rows.len() <= i64::MAX,
        running_sums_fit(narrowed_rows@),
    ensures
        r.classified,
        r.pruned_count == pruned_count,
        r.prunable_count == 0,
        r.narrowed_count == narrowed_rows.len(),
        r.narrowed_rows == sum_rows(narrowed_rows@),
        r.stats == stats,
{
    let mut sum: i64 = 0;
    let mut i: usize = 0;
    while i < narrowed_rows.len()
        invariant
            i <= narrowed_rows.len(),
            running_sums_fit(narrowed_rows@),
            sum == sum_rows(narrowed_rows@.subrange(0, i as int)),
        decreases narrowed_rows.len() - i,
    {
        proof {
            let next = narrowed_rows@.subrange(0, i + 1);
            assert(next.drop_last() == narrowed_rows@.subrange(0, i as int));
            assert(next.last() == narrowed_rows@[i as int]);
            assert(i64::MIN <= sum_rows(next) <= i64::MAX);
        }
        sum = sum + narrowed_rows[i];
        i = i + 1;
    }
    assert(narrowed_rows@.subrange(0, narrowed_rows.len() as int) == narrowed_rows@);
    LifecycleResult {
        classified: true,
        pruned_count,
        prunable_count: 0,
        narrowed_count: narrowed_rows.len() as i64,
        narrowed_rows: sum,
        stats,
    }
}

/// Law: when the counts are consistent (none negative, and the protected
/// classes together no more than the total), the prunable count is exactly
/// the snapshots outside the protected classes, and is never negative.
pub proof fn lemma_prunable_exact(s: RetentionStats)
    requires
        s.current >= 0,
        s.parent >= 0,
        s.baseline_auto >= 0,
        s.baseline_user >= 0,
        s.baseline_stamp >= 0,
        s.current + s.parent + s.baseline_auto + s.baseline_user + s.baseline_stamp <= s.total,
    ensures
        prunable_spec(s) == s.total - s.current - s.parent - s.baseline_auto - s.baseline_user
            - s.baseline_stamp,
        prunable_spec(s) >= 0,
{
}

} // verus!
