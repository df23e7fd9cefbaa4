//! The scheduler's admission arithmetic. Files are dispatched in batches:
//! admitting a file consumes as many tokens as the file has chunks, and a
//! batch closes once the tokens reach `max_tasks` or the list ends, so a
//! very large file can hold the whole budget alone.

use vstd::prelude::*;

use crate::parts::MAX_SPLIT_PARTS;

verus! {

/// The tokens of the files in `[a, b)`.
pub open spec fn sum_counts(counts: Seq<u64>, a: int, b: int) -> int
    decreases b - a,
{
    if a >= b {
        0int
    } else {
        sum_counts(counts, a, b - 1) + counts[b - 1]
    }
}

/// A token sum peels off its first file.
pub proof fn lemma_sum_counts_head(counts: Seq<u64>, a: int, b: int)
    requires
        a < b,
    ensures
        sum_counts(counts, a, b) == counts[a] + sum_counts(counts, a + 1, b),
    decreases b - a,
{
    if a + 1 == b {
        assert(sum_counts(counts, a, a) == 0);
        assert(sum_counts(counts, a + 1, b) == 0);
    } else {
        lemma_sum_counts_head(counts, a, b - 1);
    }
}

/// Where the batch that starts at `i` with `acc` tokens spent closes:
/// files are admitted until the tokens reach `max` or the list ends.
pub open spec fn batch_end_from(counts: Seq<u64>, i: int, acc: int, max: int) -> int
    recommends
        0 <= i <= counts.len(),
    decreases counts.len() - i,
        when 0 <= i <= counts.len()
{
    if i >= counts.len() || acc >= max {
        i
    } else {
        batch_end_from(counts, i + 1, acc + counts[i], max)
    }
}

/// Where a batch closes, and the budget law: every admission but the
/// last found tokens below `max`, and a batch closes early only with
/// its tokens at `max` or above.
pub proof fn lemma_batch_end(counts: Seq<u64>, i: int, acc: int, max: int)
    requires
        0 <= i <= counts.len(),
    ensures
        i <= batch_end_from(counts, i, acc, max) <= counts.len(),
        i < counts.len() && acc < max ==> batch_end_from(counts, i, acc, max) > i,
        ({
            let e = batch_end_from(counts, i, acc, max);
            e > i ==> acc + sum_counts(counts, i, e - 1) < max
        }),
        ({
            let e = batch_end_from(counts, i, acc, max);
            e < counts.len() ==> acc + sum_counts(counts, i, e) >= max
        }),
    decreases counts.len() - i,
{
    if i >= counts.len() || acc >= max {
    } else {
        lemma_batch_end(counts, i + 1, acc + counts[i], max);
        let e = batch_end_from(counts, i, acc, max);
        if e > i + 1 {
            lemma_sum_counts_head(counts, i, e - 1);
        }
        if e < counts.len() {
            lemma_sum_counts_head(counts, i, e);
        }
    }
}

/// The batch boundaries over the whole list: each batch's end, in
/// order, until the list is exhausted.
pub open spec fn spec_batches(counts: Seq<u64>, start: int, max: int) -> Seq<int>
    recommends
        0 <= start <= counts.len(),
        1 <= max,
    decreases counts.len() - start,
        when 0 <= start <= counts.len() && 1 <= max
        via spec_batches_decreases
{
    if start >= counts.len() {
        Seq::empty()
    } else {
        let e = batch_end_from(counts, start, 0, max);
        seq![e] + spec_batches(counts, e, max)
    }
}

#[via_fn]
proof fn spec_batches_decreases(counts: Seq<u64>, start: int, max: int) {
    if 0 <= start < counts.len() && 1 <= max {
        lemma_batch_end(counts, start, 0, max);
    }
}

/// Computes the batch boundaries for a list of per-file chunk counts.
///
/// The bounds keep the running token count inside `u64`; chunk counts
/// come from [`crate::parts::calc_parts`], which caps them at
/// [`MAX_SPLIT_PARTS`].
pub fn plan_batches(counts: &Vec<u64>, max_tasks: u64) -> (r: Vec<usize>)
    requires
        1 <= max_tasks <= u64::MAX - MAX_SPLIT_PARTS,
        forall|i: int| 0 <= i < counts@.len() ==> #[trigger] counts@[i] <= MAX_SPLIT_PARTS,
    ensures
        r@.map_values(|x: usize| x as int) == spec_batches(counts@, 0, max_tasks as int),
{
    let n = counts.len();
    let mut out: Vec<usize> = Vec::new();
    let mut start: usize = 0;
    while start < n
        invariant
            start <= n,
            n == counts@.len(),
            1 <= max_tasks <= u64::MAX - MAX_SPLIT_PARTS,
            forall|i: int| 0 <= i < counts@.len() ==> #[trigger] counts@[i] <= MAX_SPLIT_PARTS,
            spec_batches(counts@, 0, max_tasks as int) == out@.map_values(|x: usize| x as int)
                + spec_batches(counts@, start as int, max_tasks as int),
        decreases n - start,
    {
        let mut e = start;
        let mut acc: u64 = 0;
        while e < n && acc < max_tasks
            invariant
                start <= e <= n,
                n == counts@.len(),
                1 <= max_tasks <= u64::MAX - MAX_SPLIT_PARTS,
                acc <= u64::MAX - MAX_SPLIT_PARTS,
                forall|i: int| 0 <= i < counts@.len() ==> #[trigger] counts@[i] <= MAX_SPLIT_PARTS,
                batch_end_from(counts@, start as int, 0, max_tasks as int) == batch_end_from(
                    counts@,
                    e as int,
                    acc as int,
                    max_tasks as int,
                ),
            decreases n - e,
        {
            let c = counts[e];
            let ghost old_acc = acc as int;
            acc = acc + c;
            if acc > max_tasks {
                // The true token count only matters while it is below
                // the budget; clamping keeps the sum inside u64.
                acc = max_tasks;
            }
            e = e + 1;
            proof {
                if old_acc + c >= max_tasks as int {
                    assert(batch_end_from(counts@, e as int, acc as int, max_tasks as int)
                        == e as int);
                    assert(batch_end_from(counts@, e as int, old_acc + c, max_tasks as int)
                        == e as int);
                }
            }
        }
        proof {
            assert(batch_end_from(counts@, e as int, acc as int, max_tasks as int) == e as int);
            assert(out@.push(e).map_values(|x: usize| x as int) =~= out@.map_values(
                |x: usize| x as int,
            ).push(e as int));
            assert(out@.map_values(|x: usize| x as int) + (seq![e as int] + spec_batches(
                counts@,
                e as int,
                max_tasks as int,
            )) =~= out@.push(e).map_values(|x: usize| x as int) + spec_batches(
                counts@,
                e as int,
                max_tasks as int,
            ));
            lemma_batch_end(counts@, start as int, 0, max_tasks as int);
        }
        out.push(e);
        start = e;
    }
    proof {
        assert(out@.map_values(|x: usize| x as int) + Seq::<int>::empty() =~= out@.map_values(
            |x: usize| x as int,
        ));
    }
    out
}

} // verus!
