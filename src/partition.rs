//! Splitting the image width into one contiguous column range per worker.

use vstd::prelude::*;

verus! {

/// A half-open range `[start, end)` of column indices handed to one worker.
#[derive(Clone, Copy, Debug, PartialEq, Eq)]
pub struct ColumnRange {
    pub start: u32,
    pub end: u32,
}

/// The width of every range: the remainder of the division is never assigned.
pub open spec fn chunk(width: u32, threads: u32) -> nat
    recommends
        threads > 0,
{
    (width / threads) as nat
}

/// The number of columns that the workers compute together.
pub open spec fn covered(width: u32, threads: u32) -> nat
    recommends
        threads > 0,
{
    (threads * chunk(width, threads)) as nat
}

/// Range `n` starts at `n * (width / threads)` and holds `width / threads` columns.
pub open spec fn range_of(width: u32, threads: u32, n: nat) -> (nat, nat)
    recommends
        threads > 0,
{
    (n * chunk(width, threads), (n + 1) * chunk(width, threads))
}

/// Whether column `col` lies inside `r`.
pub open spec fn in_range(r: (nat, nat), col: nat) -> bool {
    r.0 <= col && col < r.1
}

/// Whether some worker's range holds column `col`.
pub open spec fn assigned(width: u32, threads: u32, col: nat) -> bool {
    exists|n: nat| n < threads && #[trigger] in_range(range_of(width, threads, n), col)
}

/// The columns in the order in which the workers compute them: worker by
/// worker, each one in increasing column order.
pub open spec fn worker_columns(width: u32, threads: u32, workers: nat) -> Seq<nat>
    decreases workers,
{
    if workers == 0 {
        Seq::empty()
    } else {
        let r = range_of(width, threads, (workers - 1) as nat);
        worker_columns(width, threads, (workers - 1) as nat)
            + Seq::new((r.1 - r.0) as nat, |i: int| (r.0 + i) as nat)
    }
}

/// Every column that all workers together compute, in the order they compute it.
pub open spec fn computed_columns(width: u32, threads: u32) -> Seq<nat> {
    worker_columns(width, threads, threads as nat)
}

proof fn lemma_chunk_bound(width: u32, threads: u32)
    requires
        threads > 0,
    ensures
        covered(width, threads) <= width,
{
    assert(threads * (width / threads) <= width) by (nonlinear_arith)
        requires
            threads > 0,
    ;
}

proof fn lemma_range_bound(width: u32, threads: u32, n: nat)
    requires
        threads > 0,
        n < threads,
    ensures
        range_of(width, threads, n).0 <= range_of(width, threads, n).1,
        range_of(width, threads, n).1 <= covered(width, threads),
        range_of(width, threads, n).1 - range_of(width, threads, n).0 == chunk(width, threads),
{
    let c = chunk(width, threads);
    assert((n + 1) * c <= threads * c) by (nonlinear_arith)
        requires
            n < threads,
    ;
    assert((n + 1) * c == n * c + c) by (nonlinear_arith);
}

proof fn lemma_worker_columns(width: u32, threads: u32, workers: nat)
    requires
        threads > 0,
    ensures
        worker_columns(width, threads, workers).len() == workers * chunk(width, threads),
        forall|k: int|
            0 <= k < worker_columns(width, threads, workers).len() ==> #[trigger] worker_columns(
                width,
                threads,
                workers,
            )[k] == k,
    decreases workers,
{
    let c = chunk(width, threads);
    if workers > 0 {
        let w = (workers - 1) as nat;
        lemma_worker_columns(width, threads, w);
        assert((w + 1) * c == w * c + c) by (nonlinear_arith);
        assert(workers * c == w * c + c) by (nonlinear_arith)
            requires
                workers == w + 1,
        ;
    }
}

/// The ranges of a partition are pairwise disjoint, each holds `width / threads`
/// columns, and together they cover exactly `[0, threads * (width / threads))`:
/// the remainder columns belong to no range.
pub proof fn lemma_partition_covers(width: u32, threads: u32)
    requires
        threads > 0,
    ensures
        forall|n: nat, m: nat, col: nat|
            n < threads && m < threads && n != m ==> !(#[trigger] in_range(
                range_of(width, threads, n),
                col,
            ) && #[trigger] in_range(range_of(width, threads, m), col)),
        forall|n: nat|
            n < threads ==> #[trigger] range_of(width, threads, n).1 - range_of(
                width,
                threads,
                n,
            ).0 == chunk(width, threads),
        forall|col: nat| col < covered(width, threads) <==> #[trigger] assigned(width, threads, col),
        covered(width, threads) <= width,
{
    let c = chunk(width, threads);
    lemma_chunk_bound(width, threads);
    assert forall|n: nat, m: nat, col: nat|
        n < threads && m < threads && n != m implies !(#[trigger] in_range(
            range_of(width, threads, n),
            col,
        ) && #[trigger] in_range(range_of(width, threads, m), col)) by {
        if n < m {
            assert((n + 1) * c <= m * c) by (nonlinear_arith)
                requires
                    n < m,
            ;
        } else {
            assert((m + 1) * c <= n * c) by (nonlinear_arith)
                requires
                    m < n,
            ;
        }
    }
    assert forall|n: nat| n < threads implies #[trigger] range_of(width, threads, n).1 - range_of(
        width,
        threads,
        n,
    ).0 == chunk(width, threads) by {
        lemma_range_bound(width, threads, n);
    }
    assert forall|col: nat| col < covered(width, threads) <==> #[trigger] assigned(
        width,
        threads,
        col,
    ) by {
        if col < covered(width, threads) {
            let n = col / c;
            assert(c > 0) by (nonlinear_arith)
                requires
                    col < threads * c,
            ;
            assert(n * c <= col && col < (n + 1) * c) by (nonlinear_arith)
                requires
                    c > 0,
                    n == col / c,
            ;
            assert(n < threads) by (nonlinear_arith)
                requires
                    n * c <= col,
                    col < threads * c,
                    c > 0,
            ;
            assert(in_range(range_of(width, threads, n), col));
        }
        if assigned(width, threads, col) {
            let n = choose|n: nat| n < threads && #[trigger] in_range(range_of(width, threads, n), col);
            lemma_range_bound(width, threads, n);
        }
    }
}

/// Worker by worker, the workers compute every covered column exactly once, and
/// in increasing order: the `k`-th column computed is column `k`.
pub proof fn lemma_computed_columns(width: u32, threads: u32)
    requires
        threads > 0,
    ensures
        computed_columns(width, threads).len() == covered(width, threads),
        forall|k: int|
            0 <= k < computed_columns(width, threads).len() ==> #[trigger] computed_columns(
                width,
                threads,
            )[k] == k,
{
    lemma_worker_columns(width, threads, threads as nat);
}

/// With as many workers as columns each worker computes one column; with one
/// worker it computes all of them. Either way the columns computed are the same,
/// `0, 1, ..., width - 1`.
pub proof fn lemma_one_or_all_workers(width: u32)
    requires
        width > 0,
    ensures
        forall|n: nat|
            n < width ==> #[trigger] range_of(width, width, n) == (n, n + 1),
        range_of(width, 1, 0) == (0nat, width as nat),
        computed_columns(width, width) == computed_columns(width, 1),
        computed_columns(width, 1).len() == width,
{
    assert(width / width == 1) by (nonlinear_arith)
        requires
            width > 0,
    ;
    lemma_computed_columns(width, width);
    lemma_computed_columns(width, 1);
    assert(computed_columns(width, width) =~= computed_columns(width, 1));
}

/// Splits `[0, width)` into `threads` ranges of `width / threads` columns each;
/// range `n` starts at `n * (width / threads)`.
pub fn partition(width: u32, threads: u32) -> (ranges: Vec<ColumnRange>)
    requires
        threads > 0,
    ensures
        ranges@.len() == threads,
        forall|n: int|
            0 <= n < threads ==> (ranges@[n].start as nat, ranges@[n].end as nat) == range_of(
                width,
                threads,
                n as nat,
            ),
{
    let c: u32 = width / threads;
    proof {
        lemma_chunk_bound(width, threads);
    }
    let mut ranges: Vec<ColumnRange> = Vec::new();
    let mut n: u32 = 0;
    while n < threads
        invariant
            n <= threads,
            c == chunk(width, threads),
            covered(width, threads) <= width,
            ranges@.len() == n,
            forall|k: int|
                0 <= k < n ==> (ranges@[k].start as nat, ranges@[k].end as nat) == range_of(
                    width,
                    threads,
                    k as nat,
                ),
        decreases threads - n,
    {
        proof {
            lemma_range_bound(width, threads, n as nat);
            assert((n + 1) * c == n * c + c) by (nonlinear_arith);
        }
        let start: u32 = n * c;
        let end: u32 = start + c;
        ranges.push(ColumnRange { start, end });
        n = n + 1;
    }
    ranges
}

/// The number of finished columns to wait for: `threads * (width / threads)`.
pub fn expected_count(width: u32, threads: u32) -> (count: u32)
    requires
        threads > 0,
    ensures
        count == covered(width, threads),
        count <= width,
{
    proof {
        lemma_chunk_bound(width, threads);
    }
    threads * (width / threads)
}

} // verus!
