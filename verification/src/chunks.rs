//! How rows (E-step) and clusters (M-step) are split among worker threads.
//!
//! Both steps cut `0..n` into consecutive ranges of `ceil(n / threads)`
//! items, the last range possibly shorter; each range goes to one thread.
use vstd::prelude::*;
use vstd::arithmetic::div_mod::{lemma_fundamental_div_mod, lemma_mod_bound};

verus! {

/// `ceil(n / parts)` as computed by `(n + parts - 1) / parts`.
pub open spec fn ceil_div(n: nat, parts: nat) -> nat {
    ((n + parts - 1) / (parts as int)) as nat
}

/// The end of the `j`-th range of width `size` inside `0..n`.
pub open spec fn range_end(j: int, size: nat, n: nat) -> int {
    if (j + 1) * size < n {
        (j + 1) * size
    } else {
        n as int
    }
}

/// `ranges` is the split of `0..n` into consecutive ranges of width `size`:
/// range `j` is `j * size .. min((j + 1) * size, n)`, and there are just as
/// many ranges as needed to reach `n`.
pub open spec fn is_chunk_plan(ranges: Seq<(usize, usize)>, n: nat, size: nat) -> bool {
    &&& ranges.len() * size >= n
    &&& (ranges.len() == 0 || (ranges.len() - 1) * size < n)
    &&& forall|j: int|
        0 <= j < ranges.len() ==> {
            &&& (#[trigger] ranges[j]).0 == j * size
            &&& ranges[j].1 == range_end(j, size, n)
        }
}

/// Facts about `ceil_div` that the splitting relies on.
pub proof fn lemma_ceil_div(n: nat, parts: nat)
    requires
        parts >= 1,
    ensures
        parts * ceil_div(n, parts) >= n,
        parts * ceil_div(n, parts) <= n + parts - 1,
        n >= 1 ==> ceil_div(n, parts) >= 1,
        n == 0 ==> ceil_div(n, parts) == 0,
{
    let m = (n + parts - 1) as int;
    let p = parts as int;
    lemma_fundamental_div_mod(m, p);
    lemma_mod_bound(m, p);
    let q = m / p;
    assert(q >= 0) by (nonlinear_arith)
        requires
            m >= 0,
            p >= 1,
            m == p * q + m % p,
            0 <= m % p < p,
    ;
    assert(ceil_div(n, parts) == q);
    if n >= 1 {
        assert(q >= 1) by (nonlinear_arith)
            requires
                m >= p,
                m == p * q + m % p,
                0 <= m % p < p,
        ;
    }
    if n == 0 {
        assert(q == 0) by (nonlinear_arith)
            requires
                m == p - 1,
                p >= 1,
                m == p * q + m % p,
                0 <= m % p < p,
                q >= 0,
        ;
    }
}

/// The rows `0..n_rows` cut into one range per E-step worker, as the E-step
/// walks them: starting at 0 and stepping by `ceil(n_rows / n_threads)`.
///
/// `n_rows` must be positive: with no rows the step would be zero, which
/// `step_by` refuses.
pub fn row_chunks(n_rows: usize, n_threads: usize) -> (ranges: Vec<(usize, usize)>)
    requires
        n_threads >= 1,
        n_rows >= 1,
        n_rows + n_threads <= usize::MAX,
    ensures
        is_chunk_plan(ranges@, n_rows as nat, ceil_div(n_rows as nat, n_threads as nat)),
{
    let size = (n_rows + n_threads - 1) / n_threads;
    proof {
        lemma_ceil_div(n_rows as nat, n_threads as nat);
    }
    let mut ranges: Vec<(usize, usize)> = Vec::new();
    let mut start: usize = 0;
    while start < n_rows
        invariant
            size == ceil_div(n_rows as nat, n_threads as nat),
            size >= 1,
            n_threads * size <= n_rows + n_threads - 1 <= usize::MAX,
            n_threads * size >= n_rows,
            start == ranges@.len() * size,
            ranges@.len() <= n_threads,
            ranges@.len() == 0 || (ranges@.len() - 1) * size < n_rows,
            forall|j: int|
                0 <= j < ranges@.len() ==> {
                    &&& (#[trigger] ranges@[j]).0 == j * size
                    &&& ranges@[j].1 == range_end(j, size as nat, n_rows as nat)
                },
        decreases n_threads - ranges@.len(),
    {
        let ghost k = ranges@.len();
        assert(k < n_threads) by (nonlinear_arith)
            requires
                start == k * size,
                start < n_rows,
                n_threads * size >= n_rows,
                size >= 1,
        ;
        assert(start + size <= n_threads * size) by (nonlinear_arith)
            requires
                start == k * size,
                k < n_threads,
        ;
        let end = if start + size < n_rows {
            start + size
        } else {
            n_rows
        };
        ranges.push((start, end));
        assert(start + size == (k + 1) * size) by (nonlinear_arith)
            requires
                start == k * size,
        ;
        start = start + size;
    }
    ranges
}

/// The clusters `0..n_clusters` cut into one range per M-step worker, as
/// the M-step hands them out: worker `i` takes the clusters from
/// `i * ceil(n_clusters / n_threads)` on, and the workers whose first
/// cluster would lie past the end get none.
pub fn cluster_chunks(n_clusters: usize, n_threads: usize) -> (ranges: Vec<(usize, usize)>)
    requires
        n_threads >= 1,
        n_clusters + n_threads <= usize::MAX,
    ensures
        is_chunk_plan(ranges@, n_clusters as nat, ceil_div(n_clusters as nat, n_threads as nat)),
{
    let size = (n_clusters + n_threads - 1) / n_threads;
    proof {
        lemma_ceil_div(n_clusters as nat, n_threads as nat);
    }
    let mut ranges: Vec<(usize, usize)> = Vec::new();
    let mut thread_id: usize = 0;
    while thread_id < n_threads
        invariant
            size == ceil_div(n_clusters as nat, n_threads as nat),
            n_clusters >= 1 ==> size >= 1,
            n_clusters == 0 ==> size == 0,
            n_threads * size <= n_clusters + n_threads - 1 <= usize::MAX,
            n_threads * size >= n_clusters,
            thread_id <= n_threads,
            thread_id == ranges@.len(),
            ranges@.len() == 0 || (ranges@.len() - 1) * size < n_clusters,
            forall|j: int|
                0 <= j < ranges@.len() ==> {
                    &&& (#[trigger] ranges@[j]).0 == j * size
                    &&& ranges@[j].1 == range_end(j, size as nat, n_clusters as nat)
                },
        ensures
            is_chunk_plan(ranges@, n_clusters as nat, size as nat),
        decreases n_threads - thread_id,
    {
        assert(thread_id * size <= n_threads * size) by (nonlinear_arith)
            requires
                thread_id < n_threads,
                size >= 0,
        ;
        let start = thread_id * size;
        if start >= n_clusters {
            break;
        }
        assert(start + size <= n_threads * size) by (nonlinear_arith)
            requires
                start == thread_id * size,
                thread_id < n_threads,
        ;
        let end = if start + size < n_clusters {
            start + size
        } else {
            n_clusters
        };
        assert(start + size == (thread_id + 1) * size) by (nonlinear_arith)
            requires
                start == thread_id * size,
        ;
        ranges.push((start, end));
        thread_id = thread_id + 1;
    }
    ranges
}

/// The items `f(lo), .., f(hi - 1)` of one range `(lo, hi)`.
pub open spec fn range_items<T>(r: (usize, usize), f: spec_fn(int) -> T) -> Seq<T> {
    Seq::new((r.1 - r.0) as nat, |i: int| f(r.0 + i))
}

/// The items of every range, range after range.
pub open spec fn plan_items<T>(ranges: Seq<(usize, usize)>, f: spec_fn(int) -> T) -> Seq<T> {
    ranges.map_values(|r: (usize, usize)| range_items(r, f)).flatten()
}

proof fn lemma_plan_items_prefix<T>(
    ranges: Seq<(usize, usize)>,
    n: nat,
    size: nat,
    f: spec_fn(int) -> T,
    k: int,
)
    requires
        is_chunk_plan(ranges, n, size),
        size >= 1,
        0 <= k <= ranges.len(),
    ensures
        plan_items(ranges.take(k), f) =~= Seq::new(
            (if k == 0 {
                0
            } else {
                ranges[k - 1].1 as int
            }) as nat,
            f,
        ),
        k > 0 ==> ranges[k - 1].1 == range_end(k - 1, size, n),
    decreases k,
{
    if k > 0 {
        lemma_plan_items_prefix(ranges, n, size, f, k - 1);
        let g = |r: (usize, usize)| range_items(r, f);
        let prev = ranges.take(k - 1).map_values(g);
        assert(ranges.take(k).map_values(g) =~= prev.push(range_items(ranges[k - 1], f)));
        prev.lemma_flatten_push(range_items(ranges[k - 1], f));
        let _ = ranges[k - 1];
        assert((k - 1) * size <= (ranges.len() - 1) * size) by (nonlinear_arith)
            requires
                k <= ranges.len(),
                size >= 1,
        ;
        if k > 1 {
            let _ = ranges[k - 2];
            assert(range_end(k - 2, size, n) == (k - 1) * size);
        }
        let lo = ranges[k - 1].0 as int;
        let hi = ranges[k - 1].1 as int;
        assert(lo == (k - 1) * size);
        assert(k * size == (k - 1) * size + size) by (nonlinear_arith);
        assert(lo <= hi);
        let before = Seq::new(lo as nat, f);
        assert(plan_items(ranges.take(k - 1), f) =~= before);
        assert(plan_items(ranges.take(k), f) =~= before + range_items(ranges[k - 1], f));
        assert(before + range_items(ranges[k - 1], f) =~= Seq::new(hi as nat, f));
    }
}

/// Splitting law: the ranges of a plan are nonempty, at most `size` long,
/// consecutive, start at 0 and end at `n`; listing the items of every range,
/// range after range, lists `f(0), .., f(n - 1)` once each and in order.
/// So the workers together visit every row (or cluster) exactly once, and
/// gathering their results in worker order gives the results in row order.
pub proof fn lemma_chunk_plan_partitions<T>(
    ranges: Seq<(usize, usize)>,
    n: nat,
    size: nat,
    f: spec_fn(int) -> T,
)
    requires
        is_chunk_plan(ranges, n, size),
        size >= 1,
    ensures
        ranges.len() == 0 <==> n == 0,
        ranges.len() > 0 ==> ranges[0].0 == 0 && ranges[ranges.len() - 1].1 == n,
        forall|j: int|
            0 <= j < ranges.len() ==> (#[trigger] ranges[j]).0 < ranges[j].1 && ranges[j].1
                - ranges[j].0 <= size,
        forall|j: int| 0 <= j < ranges.len() - 1 ==> (#[trigger] ranges[j]).1 == ranges[j + 1].0,
        plan_items(ranges, f) =~= Seq::new(n, f),
{
    let len = ranges.len() as int;
    assert forall|j: int| 0 <= j < len implies (#[trigger] ranges[j]).0 < ranges[j].1 && ranges[j].1
        - ranges[j].0 <= size by {
        assert(j * size <= (len - 1) * size) by (nonlinear_arith)
            requires
                j <= len - 1,
                size >= 1,
        ;
        assert((j + 1) * size == j * size + size) by (nonlinear_arith);
    }
    assert forall|j: int| 0 <= j < len - 1 implies (#[trigger] ranges[j]).1 == ranges[j + 1].0 by {
        let _ = ranges[j + 1];
        assert((j + 1) * size <= (len - 1) * size) by (nonlinear_arith)
            requires
                j + 1 <= len - 1,
                size >= 1,
        ;
    }
    if len > 0 {
        let _ = ranges[0];
        let _ = ranges[len - 1];
        assert(len * size == (len - 1) * size + size) by (nonlinear_arith);
    }
    lemma_plan_items_prefix(ranges, n, size, f, len);
    assert(ranges.take(len) =~= ranges);
}

/// A plan whose ranges are `ceil(n / threads)` wide has at most `threads`
/// ranges: no more workers are started than were asked for.
pub proof fn lemma_chunk_plan_fits_threads(ranges: Seq<(usize, usize)>, n: nat, threads: nat)
    requires
        threads >= 1,
        is_chunk_plan(ranges, n, ceil_div(n, threads)),
    ensures
        ranges.len() <= threads,
{
    lemma_ceil_div(n, threads);
    let size = ceil_div(n, threads);
    if ranges.len() > threads {
        assert(threads * size <= (ranges.len() - 1) * size) by (nonlinear_arith)
            requires
                threads <= ranges.len() - 1,
                size >= 0,
        ;
    }
}

/// The elements of all `parts`, part after part.
pub open spec fn concatenated<T>(parts: Seq<Vec<T>>) -> Seq<T> {
    parts.map_values(|p: Vec<T>| p@).flatten()
}

/// Gathers the results of the workers: the results of every worker, worker
/// after worker, each in its own order.
pub fn merge_chunk_results<T>(parts: Vec<Vec<T>>) -> (merged: Vec<T>)
    ensures
        merged@ == concatenated(parts@),
{
    let ghost all = parts@;
    let mut merged: Vec<T> = Vec::new();
    for part in it: parts.into_iter()
        invariant
            all == it.seq(),
            merged@ == concatenated(all.take(it.index() as int)),
    {
        let ghost k = it.index() as int;
        let mut part = part;
        let ghost before = merged@;
        merged.append(&mut part);
        proof {
            let f = |p: Vec<T>| p@;
            assert(all.take(k + 1) =~= all.take(k).push(all[k]));
            assert(all.take(k + 1).map_values(f) =~= all.take(k).map_values(f).push(all[k]@));
            all.take(k).map_values(f).lemma_flatten_push(all[k]@);
        }
    }
    proof {
        assert(all.take(all.len() as int) =~= all);
    }
    merged
}

/// Gathering law: when each worker returns, in order, one result for each
/// item of its range (`f(i)` for item `i`), gathering the workers' results
/// worker after worker gives the result of every item, in item order.
pub proof fn lemma_merged_results_in_order<T>(
    parts: Seq<Vec<T>>,
    ranges: Seq<(usize, usize)>,
    n: nat,
    size: nat,
    f: spec_fn(int) -> T,
)
    requires
        is_chunk_plan(ranges, n, size),
        size >= 1,
        parts.len() == ranges.len(),
        forall|k: int| 0 <= k < parts.len() ==> (#[trigger] parts[k])@ == range_items(ranges[k], f),
    ensures
        concatenated(parts) == Seq::new(n, f),
{
    lemma_chunk_plan_partitions(ranges, n, size, f);
    let g = |p: Vec<T>| p@;
    let h = |r: (usize, usize)| range_items(r, f);
    assert(parts.map_values(g) =~= ranges.map_values(h));
}

} // verus!
