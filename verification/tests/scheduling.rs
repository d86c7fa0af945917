use kmeans_parallel::chunks::{cluster_chunks, merge_chunk_results, row_chunks};
use kmeans_parallel::model::{Cluster, KMeans};
use kmeans_parallel::sampling::{random_rows, seeded_rows, FIXED_SEED};
use kmeans_parallel::threads::effective_thread_count;

#[test]
fn thread_count_falls_back_to_available_cpus() {
    assert_eq!(effective_thread_count(0, 8), 8);
    assert_eq!(effective_thread_count(9, 8), 8);
    assert_eq!(effective_thread_count(3, 8), 3);
    assert_eq!(effective_thread_count(8, 8), 8);
    assert_eq!(effective_thread_count(1, 1), 1);
}

#[test]
fn new_model_resolves_threads_against_machine() {
    let model: KMeans<Vec<f64>> = KMeans::new(3, 5, 1);
    assert_eq!(model.n_clusters(), 3);
    assert_eq!(model.max_iter(), 5);
    assert_eq!(model.n_threads(), 1);
    assert!(model.clusters().is_empty());
    let any: KMeans<Vec<f64>> = KMeans::new(3, 5, 0);
    assert!(any.n_threads() >= 1);
    let many: KMeans<Vec<f64>> = KMeans::new(3, 5, usize::MAX);
    assert!(many.n_threads() >= 1);
    assert!(many.n_threads() < usize::MAX);
}

#[test]
fn model_with_known_cpus() {
    let model: KMeans<u32> = KMeans::with_available_cpus(5, 100, 12, 4);
    assert_eq!(model.n_threads(), 4);
    assert_eq!(model.n_clusters(), 5);
    assert_eq!(model.max_iter(), 100);
    let model: KMeans<u32> = KMeans::with_available_cpus(5, 100, 2, 4);
    assert_eq!(model.n_threads(), 2);
    let model: KMeans<u32> = KMeans::with_available_cpus(5, 100, 0, 6);
    assert_eq!(model.n_threads(), 6);
}

#[test]
fn rows_split_among_threads() {
    assert_eq!(row_chunks(10, 3), vec![(0, 4), (4, 8), (8, 10)]);
    assert_eq!(row_chunks(5, 12), vec![(0, 1), (1, 2), (2, 3), (3, 4), (4, 5)]);
    assert_eq!(row_chunks(7, 1), vec![(0, 7)]);
    assert_eq!(row_chunks(1, 4), vec![(0, 1)]);
    let big = row_chunks(10000, 12);
    assert_eq!(big.len(), 12);
    assert_eq!(big[0], (0, 834));
    assert_eq!(big[11], (9174, 10000));
    for k in 1..big.len() {
        assert_eq!(big[k - 1].1, big[k].0);
    }
}

#[test]
fn clusters_split_among_threads() {
    assert_eq!(cluster_chunks(3, 12), vec![(0, 1), (1, 2), (2, 3)]);
    assert_eq!(cluster_chunks(0, 4), vec![]);
    assert_eq!(cluster_chunks(10, 3), vec![(0, 4), (4, 8), (8, 10)]);
    assert_eq!(cluster_chunks(5, 1), vec![(0, 5)]);
    assert_eq!(cluster_chunks(9, 4), vec![(0, 3), (3, 6), (6, 9)]);
}

#[test]
fn e_and_m_plans_agree() {
    for n in 1..40usize {
        for t in 1..14usize {
            assert_eq!(row_chunks(n, t), cluster_chunks(n, t));
        }
    }
}

#[test]
fn worker_results_merge_in_order() {
    let parts = vec![vec![1, 2], vec![], vec![3], vec![4, 5, 6]];
    assert_eq!(merge_chunk_results(parts), vec![1, 2, 3, 4, 5, 6]);
    let none: Vec<Vec<u8>> = Vec::new();
    assert!(merge_chunk_results(none).is_empty());
    let ranges = row_chunks(10, 4);
    let parts: Vec<Vec<(usize, usize)>> = ranges
        .iter()
        .map(|&(lo, hi)| (lo..hi).map(|r| (r, r % 3)).collect())
        .collect();
    let merged = merge_chunk_results(parts);
    let expected: Vec<(usize, usize)> = (0..10).map(|r| (r, r % 3)).collect();
    assert_eq!(merged, expected);
}

#[test]
fn points_go_to_their_clusters_in_order() {
    let mut model: KMeans<i32> = KMeans::with_available_cpus(2, 10, 2, 4);
    model.push_cluster(0);
    model.push_cluster(100);
    model.assign_points(vec![(1, 10), (0, 20), (1, 30), (0, 40)]);
    assert_eq!(model.clusters()[0].data(), &vec![20, 40]);
    assert_eq!(model.clusters()[1].data(), &vec![10, 30]);
    assert_eq!(*model.clusters()[0].center(), 0);
    assert_eq!(*model.clusters()[1].center(), 100);
    model.assign_points(vec![(0, 50)]);
    assert_eq!(model.clusters()[0].data(), &vec![20, 40, 50]);
    model.set_center(1, 7);
    assert_eq!(*model.clusters()[1].center(), 7);
    assert_eq!(model.clusters()[1].data(), &vec![10, 30]);
    model.clear_cluster_data();
    assert!(model.clusters()[0].data().is_empty());
    assert!(model.clusters()[1].data().is_empty());
    assert_eq!(*model.clusters()[0].center(), 0);
    assert_eq!(*model.clusters()[1].center(), 7);
}

#[test]
fn new_cluster_has_no_points() {
    let cluster = Cluster::new(vec![1.5, 2.5]);
    assert_eq!(cluster.center(), &vec![1.5, 2.5]);
    assert!(cluster.data().is_empty());
}

#[test]
fn model_plans_use_its_threads() {
    let model: KMeans<u8> = KMeans::with_available_cpus(3, 5, 12, 12);
    assert_eq!(model.e_step_chunks(10000).len(), 12);
    assert_eq!(model.m_step_chunks(), vec![(0, 1), (1, 2), (2, 3)]);
}

#[test]
fn initial_rows_are_fixed_by_the_seed() {
    let model: KMeans<u8> = KMeans::with_available_cpus(5, 5, 1, 1);
    let rows = model.initial_center_rows(1000);
    assert_eq!(rows.len(), 5);
    assert!(rows.iter().all(|&r| r < 1000));
    let again: KMeans<u8> = KMeans::with_available_cpus(5, 9, 3, 4);
    assert_eq!(again.initial_center_rows(1000), rows);
    assert_eq!(seeded_rows(FIXED_SEED, 5, 1000), rows);
    let one_row = seeded_rows(FIXED_SEED, 4, 1);
    assert_eq!(one_row, vec![0, 0, 0, 0]);
    let empty: KMeans<u8> = KMeans::with_available_cpus(0, 5, 1, 1);
    assert!(empty.initial_center_rows(0).is_empty());
    let spread = seeded_rows(FIXED_SEED, 50, 1_000_000);
    assert!(spread.iter().any(|&r| r != spread[0]));
}

#[test]
fn random_rows_stay_in_range() {
    let mut rng = rand::thread_rng();
    let rows = random_rows(&mut rng, 20, 7);
    assert_eq!(rows.len(), 20);
    assert!(rows.iter().all(|&r| r < 7));
    assert!(random_rows(&mut rng, 0, 0).is_empty());
}

#[test]
fn plans_never_use_more_workers_than_threads() {
    for n in 0..60usize {
        for t in 1..16usize {
            let plan = cluster_chunks(n, t);
            assert!(plan.len() <= t);
            let covered: Vec<usize> = plan.iter().flat_map(|&(lo, hi)| lo..hi).collect();
            assert_eq!(covered, (0..n).collect::<Vec<usize>>());
            if n > 0 {
                assert!(row_chunks(n, t).len() <= t);
            }
        }
    }
}

#[test]
fn filing_keeps_every_point() {
    let mut model: KMeans<usize> = KMeans::with_available_cpus(3, 10, 2, 4);
    for c in 0..3 {
        model.push_cluster(c);
    }
    let assignments: Vec<(usize, usize)> = (0..100).map(|p| ((p * 7) % 3, p)).collect();
    model.assign_points(assignments);
    let total: usize = model.clusters().iter().map(|c| c.data().len()).sum();
    assert_eq!(total, 100);
    let mut all: Vec<usize> = model.clusters().iter().flat_map(|c| c.data().clone()).collect();
    all.sort();
    assert_eq!(all, (0..100).collect::<Vec<usize>>());
    for (c, cluster) in model.clusters().iter().enumerate() {
        assert!(cluster.data().iter().all(|&p| (p * 7) % 3 == c));
        assert!(cluster.data().windows(2).all(|w| w[0] < w[1]));
    }
}
