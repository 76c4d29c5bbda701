//! Searches over small and random datasets: every strategy against the
//! linear baseline, and range search against brute force.

use clam::{Cakes, FlatVec, KnnAlgorithm, Metric, MetricKind, PartitionCriteria};

fn manhattan_metric() -> Metric {
    Metric::new(MetricKind::Manhattan, false)
}

fn brute_force_distance(x: &[i64], y: &[i64]) -> u64 {
    x.iter().zip(y.iter()).map(|(a, b)| (a - b).unsigned_abs()).sum()
}

fn check_knn(model: &Cakes, query: &Vec<i64>, k: usize) {
    let linear = model.knn_search(query, k, KnnAlgorithm::Linear);
    let repeated = model.knn_search(query, k, KnnAlgorithm::RepeatedRnn);
    let breadth = model.knn_search(query, k, KnnAlgorithm::BreadthFirst);
    let depth = model.knn_search(query, k, KnnAlgorithm::DepthFirst);
    assert_eq!(linear, repeated);
    assert_eq!(linear, breadth);
    assert_eq!(linear, depth);
}

fn random_data(n: usize, dim: usize, lo: i64, hi: i64, seed: u64) -> Vec<Vec<i64>> {
    // A small linear congruential generator keeps the data reproducible.
    let mut state = seed.wrapping_mul(6364136223846793005).wrapping_add(1442695040888963407);
    let mut out = Vec::new();
    for _ in 0..n {
        let mut row = Vec::new();
        for _ in 0..dim {
            state = state.wrapping_mul(6364136223846793005).wrapping_add(1442695040888963407);
            let span = (hi - lo) as u64;
            let v = lo + ((state >> 16) % span.max(1)) as i64;
            row.push(v);
        }
        out.push(row);
    }
    out
}

#[test]
fn tiny() {
    let data: Vec<Vec<i64>> = (1..=10).map(|i| vec![i as i64]).collect();
    let data = FlatVec::new(data, manhattan_metric()).unwrap();

    let query = vec![0_i64];

    let criteria = PartitionCriteria::default();
    let model = Cakes::new(data, None, criteria);

    let linear_nn = model.knn_search(&query, 3, KnnAlgorithm::Linear);
    assert_eq!(linear_nn.len(), 3);

    let distances: Vec<u64> = linear_nn.iter().map(|&(_, d)| d).collect();
    let true_distances = vec![1, 2, 3];
    assert_eq!(distances, true_distances);
}

#[test]
fn linear() {
    let (cardinality, dimensionality) = (1_000, 10);
    let seed = 42;

    let data = random_data(cardinality, dimensionality, -1000, 1000, seed);
    let data = FlatVec::new(data, manhattan_metric()).unwrap();

    let query = random_data(1, dimensionality, -1000, 1000, seed * 2).remove(0);

    let criteria = PartitionCriteria::default();
    let model = Cakes::new(data, Some(seed), criteria);

    for k in [100, 10, 1] {
        let linear_nn = model.knn_search(&query, k, KnnAlgorithm::Linear);
        assert_eq!(
            linear_nn.len(),
            k,
            "Linear search returned {} neighbors instead of {}",
            linear_nn.len(),
            k
        );
    }
}

#[test]
fn line() {
    let data: Vec<Vec<i64>> = (-10..=10).map(|i| vec![i as i64]).collect();
    let data = FlatVec::new(data, manhattan_metric()).unwrap();
    let query = vec![0_i64];

    let model = Cakes::new(data, Some(42), PartitionCriteria::default());
    for k in [1, 4, 8] {
        check_knn(&model, &query, k);
    }
}

#[test]
fn grid() {
    let mut data: Vec<Vec<i64>> = Vec::new();
    for x in -10..=10_i64 {
        for y in -10..=10_i64 {
            data.push(vec![x, y]);
        }
    }
    let data = FlatVec::new(data, manhattan_metric()).unwrap();
    let query = vec![0_i64, 0];

    let model = Cakes::new(data, Some(42), PartitionCriteria::default());
    for k in [1, 4, 8] {
        check_knn(&model, &query, k);
    }
}

#[test]
fn grid_axis_neighbors() {
    // The origin itself is the nearest hit; the next four hits are the axis
    // neighbours, all at distance one.
    let mut data: Vec<Vec<i64>> = Vec::new();
    for x in -10..=10_i64 {
        for y in -10..=10_i64 {
            data.push(vec![x, y]);
        }
    }
    let data = FlatVec::new(data, manhattan_metric()).unwrap();
    let query = vec![0_i64, 0];

    let model = Cakes::new(data, Some(42), PartitionCriteria::default());
    let hits = model.knn_search(&query, 5, KnnAlgorithm::DepthFirst);
    assert_eq!(hits[0].1, 0);
    for w in 1..5 {
        assert_eq!(hits[w].1, 1);
    }
}

#[test]
fn test_knn_by_thresholds_no_separate_centers() {
    let data = random_data(5000, 30, 0, 10_000, 42);
    let data = FlatVec::new(data, manhattan_metric()).unwrap();
    let query = random_data(1, 30, 0, 1000, 44).remove(0);

    let criteria = PartitionCriteria::new().with_min_cardinality(1);
    let model = Cakes::new(data, Some(42), criteria);

    for k in [10] {
        let thresholds_nn = model.knn_search(&query, k, KnnAlgorithm::BreadthFirst);
        let linear_nn = model.knn_search(&query, k, KnnAlgorithm::Linear);
        assert_eq!(linear_nn, thresholds_nn);
    }
}

#[test]
fn rnn_completeness() {
    let data = random_data(300, 4, -500, 500, 7);
    let expected_within = |query: &Vec<i64>, radius: u64| -> Vec<usize> {
        data.iter()
            .enumerate()
            .filter(|(_, row)| brute_force_distance(query, row) <= radius)
            .map(|(i, _)| i)
            .collect()
    };
    let query = vec![0_i64, 0, 0, 0];
    let mut expected = expected_within(&query, 600);

    let flat = FlatVec::new(data.clone(), manhattan_metric()).unwrap();
    let model = Cakes::new(flat, Some(3), PartitionCriteria::default());
    let mut hits = model.rnn_search(&query, 600);
    for &(i, d) in hits.iter() {
        assert_eq!(d, brute_force_distance(&query, &data[i]));
    }
    let mut hit_ids: Vec<usize> = hits.drain(..).map(|(i, _)| i).collect();
    hit_ids.sort();
    expected.sort();
    assert_eq!(hit_ids, expected);
}

#[test]
fn knn_agreement_random() {
    let data = random_data(500, 6, -2000, 2000, 99);
    let flat = FlatVec::new(data, manhattan_metric()).unwrap();
    let model = Cakes::new(flat, Some(99), PartitionCriteria::default());
    let query = vec![13_i64, -7, 0, 250, -99, 4];
    for k in [1, 5, 17, 200, 500] {
        check_knn(&model, &query, k);
    }
}

#[test]
fn knn_k_larger_than_cardinality() {
    let data: Vec<Vec<i64>> = (0..5).map(|i| vec![i as i64]).collect();
    let flat = FlatVec::new(data, manhattan_metric()).unwrap();
    let model = Cakes::new(flat, None, PartitionCriteria::default());
    let query = vec![2_i64];
    let hits = model.knn_search(&query, 10, KnnAlgorithm::Linear);
    assert_eq!(hits.len(), 5);
}

#[test]
fn tree_idempotence() {
    let data = random_data(200, 3, -100, 100, 5);
    let a = Cakes::new(
        FlatVec::new(data.clone(), manhattan_metric()).unwrap(),
        Some(11),
        PartitionCriteria::default(),
    );
    let b = Cakes::new(
        FlatVec::new(data, manhattan_metric()).unwrap(),
        Some(11),
        PartitionCriteria::default(),
    );
    assert!(same_tree(a.tree().root(), b.tree().root()));
}

fn same_tree(a: &clam::Ball, b: &clam::Ball) -> bool {
    if a.depth() != b.depth()
        || a.cardinality() != b.cardinality()
        || a.arg_center() != b.arg_center()
        || a.arg_radial() != b.arg_radial()
        || a.radius() != b.radius()
        || a.lfd() != b.lfd()
        || a.indices() != b.indices()
        || a.children().len() != b.children().len()
    {
        return false;
    }
    for (ca, cb) in a.children().iter().zip(b.children().iter()) {
        if ca.0 != cb.0 || ca.1 != cb.1 || !same_tree(&ca.2, &cb.2) {
            return false;
        }
    }
    true
}

#[test]
fn batch_search_matches_single() {
    let data = random_data(120, 2, -50, 50, 21);
    let flat = FlatVec::new(data, manhattan_metric()).unwrap();
    let model = Cakes::new(flat, Some(21), PartitionCriteria::default());
    let queries = vec![vec![0_i64, 0], vec![10, -10], vec![49, 49]];
    let batch = model.batch_knn_search(&queries, 3, KnnAlgorithm::DepthFirst);
    let par_batch = model.par_batch_knn_search(&queries, 3, KnnAlgorithm::DepthFirst);
    assert_eq!(batch.len(), 3);
    assert_eq!(batch, par_batch);
    for (q, hits) in queries.iter().zip(batch.iter()) {
        assert_eq!(hits, &model.knn_search(q, 3, KnnAlgorithm::DepthFirst));
    }
}
