//! Range planning: splitting a transfer of `size` bytes into half-open
//! `[begin, end)` intervals, one per worker, whose union is `[0, size)` and
//! whose pairwise intersection is empty.

use vstd::prelude::*;

verus! {

/// How many intervals a transfer of `size` bytes is split into when `workers`
/// workers are available: one per worker, but never more than one per byte
/// (so no interval is empty), and none at all for an empty transfer.
pub open spec fn plan_len(size: int, workers: int) -> int {
    if size == 0 {
        0
    } else if size < workers {
        size
    } else {
        workers
    }
}

/// Width of every planned interval except the last, which also absorbs the
/// division remainder.
pub open spec fn plan_step(size: int, workers: int) -> int
    recommends
        0 < size,
        1 <= workers,
{
    size / plan_len(size, workers)
}

/// The `i`-th planned interval, as a half-open `(begin, end)` pair.
pub open spec fn plan_interval(size: int, workers: int, i: int) -> (int, int)
    recommends
        0 < size,
        1 <= workers,
        0 <= i < plan_len(size, workers),
{
    let q = plan_step(size, workers);
    if i == plan_len(size, workers) - 1 {
        (i * q, size)
    } else {
        (i * q, (i + 1) * q)
    }
}

/// Whether byte `k` falls inside one of the planned intervals.
pub open spec fn plan_covers(size: int, workers: int, k: int) -> bool {
    exists|i: int|
        0 <= i < plan_len(size, workers) && (#[trigger] plan_interval(size, workers, i)).0 <= k
            < plan_interval(size, workers, i).1
}

proof fn lemma_step_bounds(size: int, n: int) by (nonlinear_arith)
    requires
        1 <= n <= size,
    ensures
        1 <= size / n,
        n * (size / n) <= size,
{
}

proof fn lemma_mul_mono(a: int, b: int, q: int) by (nonlinear_arith)
    requires
        a <= b,
        0 <= q,
    ensures
        a * q <= b * q,
{
}

proof fn lemma_mul_step(i: int, q: int) by (nonlinear_arith)
    ensures
        (i + 1) * q == i * q + q,
{
}

/// Given a size and a worker count, split `[0, size)` into intervals suitable
/// for parallel ranged downloads, each interval `size / n` bytes wide for the
/// effective worker count `n`, the last one absorbing the remainder.
pub fn split_range(size: usize, workers: usize) -> (r: Vec<(usize, usize)>)
    requires
        1 <= workers,
    ensures
        r@.len() == plan_len(size as int, workers as int),
        forall|i: int|
            0 <= i < r@.len() ==> (#[trigger] r@[i]).0 == plan_interval(
                size as int,
                workers as int,
                i,
            ).0 && r@[i].1 == plan_interval(size as int, workers as int, i).1,
{
    let mut r: Vec<(usize, usize)> = Vec::new();
    if size == 0 {
        return r;
    }
    let n: usize = if size < workers {
        size
    } else {
        workers
    };
    let q: usize = size / n;
    proof {
        lemma_step_bounds(size as int, n as int);
    }
    let mut i: usize = 0;
    while i < n
        invariant
            0 < size,
            1 <= n <= size,
            n == plan_len(size as int, workers as int),
            q == plan_step(size as int, workers as int),
            1 <= q,
            n * q <= size,
            i <= n,
            r@.len() == i,
            forall|j: int|
                0 <= j < i ==> (#[trigger] r@[j]).0 == plan_interval(
                    size as int,
                    workers as int,
                    j,
                ).0 && r@[j].1 == plan_interval(size as int, workers as int, j).1,
        decreases n - i,
    {
        proof {
            lemma_mul_mono(i + 1 as int, n as int, q as int);
            lemma_mul_step(i as int, q as int);
        }
        let begin = i * q;
        let end = if i == n - 1 {
            size
        } else {
            (i + 1) * q
        };
        r.push((begin, end));
        i = i + 1;
    }
    r
}

/// Relies on num_cpus::get: the number of logical CPUs of the host, which is
/// always at least one.
#[verifier::external_body]
fn cpu_count() -> (r: usize)
    ensures
        1 <= r,
{
    num_cpus::get()
}

/// Split `[0, size)` for the host this process runs on: one interval per
/// logical CPU, subject to the planner's coalescing of empty intervals.
pub fn split_range_for_host(size: usize) -> (r: Vec<(usize, usize)>)
    ensures
        exists|n: int|
            1 <= n && r@.len() == #[trigger] plan_len(size as int, n) && (forall|i: int|
                0 <= i < r@.len() ==> (#[trigger] r@[i]).0 == plan_interval(size as int, n, i).0
                    && r@[i].1 == plan_interval(size as int, n, i).1),
{
    let cores = cpu_count();
    let r = split_range(size, cores);
    proof {
        let n = cores as int;
        assert(r@.len() == plan_len(size as int, n) && (forall|i: int|
            0 <= i < r@.len() ==> (#[trigger] r@[i]).0 == plan_interval(size as int, n, i).0
                && r@[i].1 == plan_interval(size as int, n, i).1));
    }
    r
}

/// Non-overlapping plan: the planned intervals are non-empty and consecutive,
/// they start at zero and end at `size`, any two distinct intervals are
/// disjoint, and together they cover every byte of `[0, size)`.
pub proof fn lemma_plan_partition(size: int, workers: int)
    requires
        0 <= size,
        1 <= workers,
    ensures
        forall|i: int|
            0 <= i < plan_len(size, workers) ==> (#[trigger] plan_interval(size, workers, i)).0
                < plan_interval(size, workers, i).1,
        plan_len(size, workers) > 0 ==> plan_interval(size, workers, 0).0 == 0,
        plan_len(size, workers) > 0 ==> plan_interval(
            size,
            workers,
            plan_len(size, workers) - 1,
        ).1 == size,
        forall|i: int|
            0 <= i < plan_len(size, workers) - 1 ==> (#[trigger] plan_interval(
                size,
                workers,
                i,
            )).1 == plan_interval(size, workers, i + 1).0,
        forall|i: int, j: int|
            0 <= i < j < plan_len(size, workers) ==> (#[trigger] plan_interval(
                size,
                workers,
                i,
            )).1 <= (#[trigger] plan_interval(size, workers, j)).0,
        forall|k: int| 0 <= k < size ==> plan_covers(size, workers, k),
{
    if size == 0 {
        return ;
    }
    let n = plan_len(size, workers);
    let q = plan_step(size, workers);
    lemma_step_bounds(size, n);
    assert forall|i: int| 0 <= i < n implies (#[trigger] plan_interval(size, workers, i)).0
        < plan_interval(size, workers, i).1 by {
        lemma_mul_step(i, q);
        lemma_mul_mono(i + 1, n, q);
    }
    assert forall|i: int| 0 <= i < n - 1 implies (#[trigger] plan_interval(size, workers, i)).1
        == plan_interval(size, workers, i + 1).0 by {
        lemma_mul_step(i, q);
    }
    assert forall|i: int, j: int| 0 <= i < j < n implies (#[trigger] plan_interval(
        size,
        workers,
        i,
    )).1 <= (#[trigger] plan_interval(size, workers, j)).0 by {
        lemma_mul_step(i, q);
        lemma_mul_mono(i + 1, j, q);
        lemma_mul_mono(j + 1, n, q);
    }
    assert forall|k: int| 0 <= k < size implies plan_covers(size, workers, k) by {
        let c = k / q;
        assert(q * c <= k < q * c + q) by (nonlinear_arith)
            requires
                1 <= q,
                0 <= k,
                c == k / q,
        ;
        if c < n - 1 {
            assert(c * q <= k < (c + 1) * q) by (nonlinear_arith)
                requires
                    q * c <= k < q * c + q,
            ;
            assert(plan_interval(size, workers, c).0 <= k < plan_interval(size, workers, c).1);
        } else {
            lemma_mul_mono(n - 1, c, q);
            assert((n - 1) * q <= c * q == q * c <= k) by (nonlinear_arith)
                requires
                    (n - 1) * q <= c * q,
                    q * c <= k,
            ;
            assert(plan_interval(size, workers, n - 1).0 <= k < plan_interval(
                size,
                workers,
                n - 1,
            ).1);
        }
    }
}

} // verus!
