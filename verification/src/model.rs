//! The k-means model: its settings and its clusters.
//!
//! The model is generic over the point type `P`, so that the bookkeeping of
//! clusters (which points belong where, which center a cluster has) is
//! verified independently of how points are represented and measured.
use vstd::prelude::*;
use crate::chunks::{ceil_div, cluster_chunks, is_chunk_plan, row_chunks};
use crate::sampling::{
    FIXED_SEED, lemma_draws_len, seeded_rows, seeded_xorshift, xorshift_draw, xorshift_draws,
    xorshift_state_after,
};
use crate::threads::{available_cpus, effective_thread_count, resolved_thread_count};

verus! {

/// One cluster: its center and the points currently assigned to it.
#[derive(Clone)]
pub struct Cluster<P> {
    center: P,
    data: Vec<P>,
}

impl<P> Cluster<P> {
    /// The center of the cluster.
    pub closed spec fn center_value(self) -> P {
        self.center
    }

    /// The points assigned to the cluster, in the order they were assigned.
    pub closed spec fn points(self) -> Seq<P> {
        self.data@
    }

    /// A cluster around `center` with no points yet.
    pub fn new(center: P) -> (cluster: Self)
        ensures
            cluster.center_value() == center,
            cluster.points() == Seq::<P>::empty(),
    {
        Cluster { center, data: Vec::new() }
    }

    /// The center of the cluster.
    pub fn center(&self) -> (center: &P)
        ensures
            *center == self.center_value(),
    {
        &self.center
    }

    /// The points assigned to the cluster.
    pub fn data(&self) -> (data: &Vec<P>)
        ensures
            data@ == self.points(),
    {
        &self.data
    }
}

/// Whether an assignment names cluster `c`.
pub open spec fn names_cluster<P>(c: int) -> spec_fn((usize, P)) -> bool {
    |a: (usize, P)| a.0 == c
}

/// The point of an assignment.
pub open spec fn assigned_point<P>() -> spec_fn((usize, P)) -> P {
    |a: (usize, P)| a.1
}

/// The points among `assignments` that go to cluster `c`, in order.
pub open spec fn points_for<P>(assignments: Seq<(usize, P)>, c: int) -> Seq<P> {
    assignments.filter(names_cluster(c)).map_values(assigned_point())
}

/// How many of `assignments` go to the clusters `0..k`.
pub open spec fn assigned_count<P>(assignments: Seq<(usize, P)>, k: nat) -> nat
    decreases k,
{
    if k == 0 {
        0
    } else {
        assigned_count(assignments, (k - 1) as nat) + points_for(assignments, k - 1).len()
    }
}

proof fn lemma_points_for_push<P>(assignments: Seq<(usize, P)>, a: (usize, P), c: int)
    ensures
        points_for(assignments.push(a), c) == if a.0 == c {
            points_for(assignments, c).push(a.1)
        } else {
            points_for(assignments, c)
        },
{
    let pred = names_cluster::<P>(c);
    assignments.lemma_filter_push(a, pred);
    let f = assigned_point::<P>();
    assert(points_for(assignments.push(a), c) == assignments.push(a).filter(pred).map_values(f));
    assert(points_for(assignments, c) == assignments.filter(pred).map_values(f));
    if a.0 == c {
        assert(pred(a));
        assert(assignments.push(a).filter(pred) == assignments.filter(pred).push(a));
        assert(assignments.filter(pred).push(a).map_values(f) =~= assignments.filter(
            pred,
        ).map_values(f).push(a.1));
    } else {
        assert(!pred(a));
        assert(assignments.push(a).filter(pred) == assignments.filter(pred));
    }
}

proof fn lemma_assigned_count_push<P>(assignments: Seq<(usize, P)>, a: (usize, P), k: nat)
    ensures
        assigned_count(assignments.push(a), k) == assigned_count(assignments, k) + if a.0 < k {
            1nat
        } else {
            0nat
        },
    decreases k,
{
    if k > 0 {
        lemma_assigned_count_push(assignments, a, (k - 1) as nat);
        lemma_points_for_push(assignments, a, k - 1);
    }
}

/// Filing law: when every assignment names one of the clusters `0..k`, the
/// clusters together receive exactly as many points as there are
/// assignments; no point is lost and none is filed twice.
pub proof fn lemma_assignment_keeps_every_point<P>(assignments: Seq<(usize, P)>, k: nat)
    requires
        forall|i: int| 0 <= i < assignments.len() ==> (#[trigger] assignments[i]).0 < k,
    ensures
        assigned_count(assignments, k) == assignments.len(),
    decreases assignments.len(),
{
    if assignments.len() == 0 {
        lemma_assigned_count_empty::<P>(k);
        assert(assignments =~= Seq::<(usize, P)>::empty());
    } else {
        let front = assignments.drop_last();
        let a = assignments.last();
        assert(a == assignments[assignments.len() - 1]);
        assert(front.push(a) =~= assignments);
        assert forall|i: int| 0 <= i < front.len() implies (#[trigger] front[i]).0 < k by {
            assert(front[i] == assignments[i]);
        }
        lemma_assignment_keeps_every_point(front, k);
        lemma_assigned_count_push(front, a, k);
        assert(front.push(a) =~= assignments);
    }
}

proof fn lemma_assigned_count_empty<P>(k: nat)
    ensures
        assigned_count(Seq::<(usize, P)>::empty(), k) == 0,
    decreases k,
{
    if k > 0 {
        lemma_assigned_count_empty::<P>((k - 1) as nat);
        reveal(Seq::filter);
        assert(points_for(Seq::<(usize, P)>::empty(), k - 1) =~= Seq::<P>::empty());
    }
}

/// A k-means model: how many clusters to form, how many iterations to run at
/// most, how many worker threads to use, and the clusters formed so far.
pub struct KMeans<P> {
    n_clusters: usize,
    max_iter: usize,
    clusters: Vec<Cluster<P>>,
    n_threads: usize,
    cpus: usize,
}

impl<P> KMeans<P> {
    #[verifier::type_invariant]
    spec fn threads_positive(self) -> bool {
        self.n_threads >= 1
    }

    /// The number of clusters to form.
    pub closed spec fn cluster_goal(self) -> nat {
        self.n_clusters as nat
    }

    /// The most iterations a fit runs.
    pub closed spec fn iteration_limit(self) -> nat {
        self.max_iter as nat
    }

    /// The number of worker threads.
    pub closed spec fn thread_count(self) -> nat {
        self.n_threads as nat
    }

    /// The clusters formed so far.
    pub closed spec fn cluster_seq(self) -> Seq<Cluster<P>> {
        self.clusters@
    }

    /// The number of usable CPUs that the thread count was resolved against.
    pub closed spec fn usable_cpus(self) -> nat {
        self.cpus as nat
    }

    /// A model with no clusters yet, whose thread count is `n_threads`
    /// resolved against `available` usable CPUs.
    pub fn with_available_cpus(
        n_clusters: usize,
        max_iter: usize,
        n_threads: usize,
        available: usize,
    ) -> (model: Self)
        requires
            available >= 1,
        ensures
            model.cluster_goal() == n_clusters,
            model.iteration_limit() == max_iter,
            model.cluster_seq() == Seq::<Cluster<P>>::empty(),
            model.thread_count() == resolved_thread_count(n_threads as nat, available as nat),
            model.usable_cpus() == available,
            1 <= n_threads <= available ==> model.thread_count() == n_threads,
            n_threads == 0 || n_threads > available ==> model.thread_count() == available,
    {
        let threads = effective_thread_count(n_threads, available);
        KMeans { n_clusters, max_iter, clusters: Vec::new(), n_threads: threads, cpus: available }
    }

    /// A model with no clusters yet; a thread count of zero, or one above
    /// the CPUs this process may use, is replaced by that number of CPUs.
    /// The number of CPUs that `num_cpus::get` reported is kept in the model
    /// (`cpu_count`), and the thread count is the request resolved against
    /// it.
    pub fn new(n_clusters: usize, max_iter: usize, n_threads: usize) -> (model: Self)
        ensures
            model.cluster_goal() == n_clusters,
            model.iteration_limit() == max_iter,
            model.cluster_seq() == Seq::<Cluster<P>>::empty(),
            model.usable_cpus() >= 1,
            model.thread_count() == resolved_thread_count(n_threads as nat, model.usable_cpus()),
            1 <= n_threads <= model.usable_cpus() ==> model.thread_count() == n_threads,
            n_threads == 0 || n_threads > model.usable_cpus() ==> model.thread_count()
                == model.usable_cpus(),
            model.thread_count() >= 1,
            n_threads > 0 ==> model.thread_count() <= n_threads,
            exists|available: nat|
                available >= 1 && model.thread_count() == resolved_thread_count(
                    n_threads as nat,
                    available,
                ),
    {
        let available = available_cpus();
        Self::with_available_cpus(n_clusters, max_iter, n_threads, available)
    }

    /// The number of clusters to form.
    pub fn n_clusters(&self) -> (n: usize)
        ensures
            n == self.cluster_goal(),
    {
        self.n_clusters
    }

    /// The most iterations a fit runs.
    pub fn max_iter(&self) -> (n: usize)
        ensures
            n == self.iteration_limit(),
    {
        self.max_iter
    }

    /// The number of usable CPUs that the thread count was resolved against.
    pub fn cpu_count(&self) -> (n: usize)
        ensures
            n == self.usable_cpus(),
    {
        self.cpus
    }

    /// The number of worker threads.
    pub fn n_threads(&self) -> (n: usize)
        ensures
            n == self.thread_count(),
            n >= 1,
    {
        proof {
            use_type_invariant(self);
        }
        self.n_threads
    }

    /// The clusters formed so far.
    pub fn clusters(&self) -> (clusters: &Vec<Cluster<P>>)
        ensures
            clusters@ == self.cluster_seq(),
    {
        &self.clusters
    }

    /// Adds a cluster around `center`, with no points, after the others.
    pub fn push_cluster(&mut self, center: P)
        ensures
            final(self).cluster_goal() == old(self).cluster_goal(),
            final(self).iteration_limit() == old(self).iteration_limit(),
            final(self).thread_count() == old(self).thread_count(),
            final(self).usable_cpus() == old(self).usable_cpus(),
            final(self).cluster_seq().len() == old(self).cluster_seq().len() + 1,
            forall|c: int|
                0 <= c < old(self).cluster_seq().len() ==> #[trigger] final(self).cluster_seq()[c]
                    == old(self).cluster_seq()[c],
            final(self).cluster_seq().last().center_value() == center,
            final(self).cluster_seq().last().points() == Seq::<P>::empty(),
    {
        proof {
            use_type_invariant(&*self);
        }
        let mut clusters: Vec<Cluster<P>> = Vec::new();
        std::mem::swap(&mut clusters, &mut self.clusters);
        clusters.push(Cluster::new(center));
        self.clusters = clusters;
    }

    /// Empties every cluster, keeping the centers.
    pub fn clear_cluster_data(&mut self)
        ensures
            final(self).cluster_goal() == old(self).cluster_goal(),
            final(self).iteration_limit() == old(self).iteration_limit(),
            final(self).thread_count() == old(self).thread_count(),
            final(self).usable_cpus() == old(self).usable_cpus(),
            final(self).cluster_seq().len() == old(self).cluster_seq().len(),
            forall|c: int|
                0 <= c < old(self).cluster_seq().len() ==> {
                    &&& (#[trigger] final(self).cluster_seq()[c]).center_value() == old(self).cluster_seq()[c].center_value()
                    &&& final(self).cluster_seq()[c].points() == Seq::<P>::empty()
                },
    {
        proof {
            use_type_invariant(&*self);
        }
        let mut clusters: Vec<Cluster<P>> = Vec::new();
        std::mem::swap(&mut clusters, &mut self.clusters);
        let ghost start = clusters@;
        let n = clusters.len();
        let mut i: usize = 0;
        while i < n
            invariant
                n == clusters@.len(),
                n == start.len(),
                0 <= i <= n,
                forall|c: int| 0 <= c < n ==> (#[trigger] clusters@[c]).center == start[c].center,
                forall|c: int| 0 <= c < i ==> (#[trigger] clusters@[c]).data@ == Seq::<P>::empty(),
                forall|c: int| i <= c < n ==> #[trigger] clusters@[c] == start[c],
            decreases n - i,
        {
            clusters[i].data.clear();
            i = i + 1;
        }
        self.clusters = clusters;
    }

    /// Files each point of `assignments` into the cluster that it names, in
    /// order; a cluster keeps the points it had and receives its new points
    /// after them.
    pub fn assign_points(&mut self, assignments: Vec<(usize, P)>)
        requires
            forall|a: int|
                0 <= a < assignments@.len() ==> (#[trigger] assignments@[a]).0 < old(self).cluster_seq().len(),
        ensures
            final(self).cluster_goal() == old(self).cluster_goal(),
            final(self).iteration_limit() == old(self).iteration_limit(),
            final(self).thread_count() == old(self).thread_count(),
            final(self).usable_cpus() == old(self).usable_cpus(),
            final(self).cluster_seq().len() == old(self).cluster_seq().len(),
            forall|c: int|
                0 <= c < old(self).cluster_seq().len() ==> {
                    &&& (#[trigger] final(self).cluster_seq()[c]).center_value() == old(self).cluster_seq()[c].center_value()
                    &&& final(self).cluster_seq()[c].points() == old(self).cluster_seq()[c].points()
                        + points_for(assignments@, c)
                },
    {
        proof {
            use_type_invariant(&*self);
        }
        let mut clusters: Vec<Cluster<P>> = Vec::new();
        std::mem::swap(&mut clusters, &mut self.clusters);
        let n = clusters.len();
        let ghost all = assignments@;
        let ghost start = clusters@;
        for a in it: assignments.into_iter()
            invariant
                n == clusters@.len(),
                n == start.len(),
                all == it.seq(),
                forall|k: int| 0 <= k < all.len() ==> (#[trigger] all[k]).0 < n,
                forall|c: int|
                    0 <= c < n ==> {
                        &&& (#[trigger] clusters@[c]).center == start[c].center
                        &&& clusters@[c].data@ == start[c].data@ + points_for(
                            all.take(it.index() as int),
                            c,
                        )
                    },
        {
            let ghost k = it.index() as int;
            let ghost before = clusters@;
            let (c, point) = a;
            clusters[c].data.push(point);
            proof {
                assert(all.take(k + 1) =~= all.take(k).push(all[k]));
                assert forall|d: int| 0 <= d < n implies {
                    &&& (#[trigger] clusters@[d]).center == start[d].center
                    &&& clusters@[d].data@ == start[d].data@ + points_for(all.take(k + 1), d)
                } by {
                    let pred = names_cluster::<P>(d);
                    all.take(k).lemma_filter_push(all[k], pred);
                    if d == c as int {
                        assert(clusters@[d].data@ =~= before[d].data@.push(all[k].1));
                    } else {
                        assert(clusters@[d] == before[d]);
                    }
                    assert(points_for(all.take(k + 1), d) =~= (if d == c as int {
                        points_for(all.take(k), d).push(all[k].1)
                    } else {
                        points_for(all.take(k), d)
                    }));
                }
            }
        }
        proof {
            assert(all.take(all.len() as int) =~= all);
        }
        self.clusters = clusters;
    }

    /// Replaces the center of cluster `index`; the points stay.
    pub fn set_center(&mut self, index: usize, center: P)
        requires
            index < old(self).cluster_seq().len(),
        ensures
            final(self).cluster_goal() == old(self).cluster_goal(),
            final(self).iteration_limit() == old(self).iteration_limit(),
            final(self).thread_count() == old(self).thread_count(),
            final(self).usable_cpus() == old(self).usable_cpus(),
            final(self).cluster_seq().len() == old(self).cluster_seq().len(),
            final(self).cluster_seq()[index as int].center_value() == center,
            final(self).cluster_seq()[index as int].points() == old(self).cluster_seq()[index as int].points(),
            forall|c: int|
                0 <= c < old(self).cluster_seq().len() && c != index ==> #[trigger] final(self).cluster_seq()[c] == old(self).cluster_seq()[c],
    {
        proof {
            use_type_invariant(&*self);
        }
        let mut clusters: Vec<Cluster<P>> = Vec::new();
        std::mem::swap(&mut clusters, &mut self.clusters);
        clusters[index].center = center;
        self.clusters = clusters;
    }

    /// The rows `0..n_rows` split among the worker threads for the E-step.
    pub fn e_step_chunks(&self, n_rows: usize) -> (ranges: Vec<(usize, usize)>)
        requires
            n_rows >= 1,
            n_rows + self.thread_count() <= usize::MAX,
        ensures
            is_chunk_plan(ranges@, n_rows as nat, ceil_div(n_rows as nat, self.thread_count())),
    {
        proof {
            use_type_invariant(self);
        }
        row_chunks(n_rows, self.n_threads)
    }

    /// The clusters `0..n_clusters` split among the worker threads for the
    /// M-step.
    pub fn m_step_chunks(&self) -> (ranges: Vec<(usize, usize)>)
        requires
            self.cluster_goal() + self.thread_count() <= usize::MAX,
        ensures
            is_chunk_plan(
                ranges@,
                self.cluster_goal(),
                ceil_div(self.cluster_goal(), self.thread_count()),
            ),
    {
        proof {
            use_type_invariant(self);
        }
        cluster_chunks(self.n_clusters, self.n_threads)
    }

    /// The rows whose points become the initial centers of a fit over
    /// `n_rows` rows: one row per cluster to form, drawn from the generator
    /// seeded with `FIXED_SEED`, so that every fit starts alike.
    pub fn initial_center_rows(&self, n_rows: usize) -> (rows: Vec<usize>)
        requires
            n_rows >= 1 || self.cluster_goal() == 0,
        ensures
            rows@ == xorshift_draws(seeded_xorshift(FIXED_SEED), self.cluster_goal(), n_rows),
            rows@.len() == self.cluster_goal(),
            forall|i: int| 0 <= i < rows@.len() ==> #[trigger] rows@[i] < n_rows,
            forall|k: int|
                0 <= k < self.cluster_goal() ==> #[trigger] rows@[k] == xorshift_draw(
                    xorshift_state_after(seeded_xorshift(FIXED_SEED), k as nat, n_rows),
                    n_rows,
                ),
    {
        let rows = seeded_rows(FIXED_SEED, self.n_clusters, n_rows);
        proof {
            lemma_draws_len(seeded_xorshift(FIXED_SEED), self.n_clusters as nat, n_rows);
        }
        rows
    }
}

} // verus!
