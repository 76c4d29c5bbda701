//! The offset adaptation, the recorded permutation, and the leaf codec.

use clam::codec::{decode_item, encode_item, round_trip};
use clam::offset_ball::{from_ball_tree, OffsetBall};
use clam::{
    Ball, CodecData, FlatVec, GraphAlgorithm, Metric, MetricKind, PartitionCriteria,
    TrainedCombination, TrainedMetaMlModel,
};

fn manhattan_metric() -> Metric {
    Metric::new(MetricKind::Manhattan, false)
}

fn gen_tiny_data() -> FlatVec {
    let instances: Vec<Vec<i64>> = vec![
        vec![1, 2],
        vec![3, 4],
        vec![5, 6],
        vec![7, 8],
        vec![11, 12],
    ];
    FlatVec::new(instances, manhattan_metric()).unwrap()
}

fn check_permutation(root: &OffsetBall, data: &FlatVec) -> bool {
    assert!(!root.children().is_empty());
    check_radii(root, data);
    true
}

fn check_radii(node: &OffsetBall, data: &FlatVec) {
    let radius = data.one_to_one(node.arg_center(), node.arg_radial());
    assert_eq!(node.radius(), radius);
    for child in node.children().iter() {
        check_radii(&child.2, data);
    }
}

#[test]
fn permutation() {
    let data = gen_tiny_data();

    let seed = Some(42);
    let criteria = PartitionCriteria::new().with_max_depth(1);

    let root = Ball::new_tree(&data, &criteria, seed);
    let mut perm_data = gen_tiny_data();
    let root = from_ball_tree(root, &mut perm_data);
    assert!(check_permutation(&root, &perm_data));

    let root = Ball::par_new_tree(&data, &criteria, seed);
    let mut perm_data = gen_tiny_data();
    let root = clam::offset_ball::par_from_ball_tree(root, &mut perm_data);
    assert!(check_permutation(&root, &perm_data));
}

#[test]
fn offset_contiguity() {
    // After adaptation, every node's interval is split exactly into its
    // children's consecutive intervals.
    let data = gen_tiny_data();
    let root = Ball::new_tree(&data, &PartitionCriteria::default(), Some(42));
    let mut perm_data = gen_tiny_data();
    let root = from_ball_tree(root, &mut perm_data);
    assert_eq!(root.offset(), 0);
    assert_eq!(root.cardinality(), 5);
    check_intervals(&root);
}

fn check_intervals(node: &OffsetBall) {
    let children = node.children();
    if children.is_empty() {
        return;
    }
    let mut expected = node.offset();
    for child in children.iter() {
        assert_eq!(child.2.offset(), expected);
        expected += child.2.cardinality();
        check_intervals(&child.2);
    }
    assert_eq!(expected, node.offset() + node.cardinality());
}

#[test]
fn permutation_recorded() {
    // The recorded permutation maps the adapted dataset back to the
    // original one.
    let original = gen_tiny_data();
    let root = Ball::new_tree(&original, &PartitionCriteria::default(), Some(42));
    let mut perm_data = gen_tiny_data();
    let _root = from_ball_tree(root, &mut perm_data);
    let sigma = perm_data.permutation();
    for p in 0..perm_data.cardinality() {
        assert_eq!(perm_data.get(p), original.get(sigma[p]));
    }
}

#[test]
fn encode_decode_round_trip() {
    let reference: Vec<i64> = vec![10, -20, 30];
    let target: Vec<i64> = vec![-5, 40, 30];
    let bytes = encode_item(&reference, &target);
    assert_eq!(bytes.len(), 24);
    let back = decode_item(&reference, &bytes);
    assert_eq!(back, target);
    assert_eq!(round_trip(&reference, &target), target);
}

#[test]
fn encoding_is_not_the_item() {
    // The encoding really transforms its input: the bytes differ from any
    // plain byte view of the item, and depend on the reference.
    let reference: Vec<i64> = vec![0, 0];
    let other_reference: Vec<i64> = vec![1, 1];
    let target: Vec<i64> = vec![2, 3];
    let a = encode_item(&reference, &target);
    let b = encode_item(&other_reference, &target);
    assert_ne!(a, b);
    assert_eq!(decode_item(&reference, &a), target);
    assert_eq!(decode_item(&other_reference, &b), target);
}

#[test]
fn compress_and_decode_leaves() {
    let original = gen_tiny_data();
    let root = Ball::new_tree(&original, &PartitionCriteria::default(), Some(42));
    let mut perm_data = gen_tiny_data();
    let root = from_ball_tree(root, &mut perm_data);
    let cd = CodecData::from_compressible(&perm_data, &root);
    assert_eq!(cd.cardinality(), 5);
    assert_eq!(cd.metadata().len(), 5);

    // Decoding the leaves, in order, recovers the whole permuted dataset.
    let mut decoded: Vec<Vec<i64>> = Vec::new();
    for l in 0..cd.leaf_offsets().len() {
        decoded.extend(cd.decode_leaf(l));
    }
    assert_eq!(decoded.len(), 5);
    for (p, item) in decoded.iter().enumerate() {
        assert_eq!(item, perm_data.get(p));
    }

    let par = cd.par_decode_leaf(0);
    assert_eq!(par, cd.decode_leaf(0));
}

#[test]
fn dataset_rejects_bad_input() {
    assert!(FlatVec::new(Vec::new(), manhattan_metric()).is_err());
    assert!(FlatVec::new(vec![vec![1], vec![2, 3]], manhattan_metric()).is_err());
    assert!(FlatVec::new(vec![vec![2_000_000]], manhattan_metric()).is_err());
    let good = gen_tiny_data();
    assert!(good.with_metadata(vec![1, 2]).is_err());
}

#[test]
fn metric_wrappers_compute() {
    // The distance calls really evaluate the metric: exact values, and the
    // parallel helper agrees with the sequential one.
    let data = FlatVec::new(
        vec![vec![0, 0, 0], vec![1, -2, 3], vec![1, 1, 1]],
        manhattan_metric(),
    )
    .unwrap();
    assert_eq!(data.one_to_one(0, 1), 6);
    assert_eq!(data.one_to_one(1, 2), 5);
    assert_eq!(data.one_to_one(2, 2), 0);

    let hamming = FlatVec::new(
        vec![vec![0, 0, 0], vec![1, 0, 3]],
        Metric::new(MetricKind::Hamming, true),
    )
    .unwrap();
    assert_eq!(hamming.one_to_one(0, 1), 2);
    let query = vec![0_i64, 0, 1];
    let js = vec![0, 1];
    assert_eq!(
        hamming.par_query_to_many(&query, &js),
        hamming.query_to_many(&query, &js)
    );
}

#[test]
fn combination_names() {
    let pair = TrainedCombination::new(
        TrainedMetaMlModel::LinearRegression,
        GraphAlgorithm::ClusterCardinality,
    );
    assert_eq!(pair.name(), "lr-cc");
    let pair = TrainedCombination::new(
        TrainedMetaMlModel::DecisionTree,
        GraphAlgorithm::VertexDegree,
    );
    assert_eq!(pair.name(), "dt-vd");
}

#[test]
fn leaves_partition_items() {
    // The leaves of a built tree carry every index exactly once.
    let data = FlatVec::new(
        (0..37).map(|i| vec![(i * 7 % 31) as i64, i as i64]).collect(),
        manhattan_metric(),
    )
    .unwrap();
    let root = Ball::new_tree(&data, &PartitionCriteria::default(), Some(1));
    let mut seen = vec![false; 37];
    collect_leaf_indices(&root, &mut seen);
    assert!(seen.iter().all(|&s| s));
}

fn collect_leaf_indices(node: &Ball, seen: &mut Vec<bool>) {
    if node.children().is_empty() {
        for i in node.indices() {
            assert!(!seen[i], "index seen twice");
            seen[i] = true;
        }
    } else {
        for child in node.children().iter() {
            collect_leaf_indices(&child.2, seen);
        }
    }
}

#[test]
fn radius_bounds_members() {
    let data = FlatVec::new(
        (0..50).map(|i| vec![(i * 13 % 47) as i64]).collect(),
        manhattan_metric(),
    )
    .unwrap();
    let root = Ball::new_tree(&data, &PartitionCriteria::default(), Some(2));
    check_radius_bound(&root, &data);
}

fn check_radius_bound(node: &Ball, data: &FlatVec) {
    for i in node.indices() {
        assert!(data.one_to_one(node.arg_center(), i) <= node.radius());
    }
    for child in node.children().iter() {
        check_radius_bound(&child.2, data);
    }
}

#[test]
fn transpose_values() {
    let data: Vec<Vec<i64>> = vec![
        vec![2, 3, 5, 7, 11, 13],
        vec![4, 3, 5, 9, 10, 15],
        vec![6, 2, 8, 11, 9, 11],
    ];
    let expected: Vec<Vec<i64>> = vec![
        vec![2, 4, 6],
        vec![3, 3, 2],
        vec![5, 5, 8],
        vec![7, 9, 11],
        vec![11, 10, 9],
        vec![13, 15, 11],
    ];
    let transposed = clam::rows_to_cols(&data);
    for i in 0..6 {
        assert_eq!(transposed[i], expected[i]);
    }
}

#[test]
fn test_transpose() {
    let data: Vec<Vec<i64>> = vec![
        vec![2, 3, 5, 7, 11, 13],
        vec![4, 3, 5, 9, 10, 15],
        vec![6, 2, 8, 11, 9, 11],
    ];
    let transposed = clam::rows_to_cols(&data);
    assert_eq!(transposed.len(), 6);
    assert_eq!(transposed[0], vec![2, 4, 6]);
}

#[test]
fn arg_helpers() {
    assert_eq!(clam::arg_min(&vec![5, 2, 9, 2]), Some((1, 2)));
    assert_eq!(clam::arg_max(&vec![5, 2, 9, 9]), Some((3, 9)));
    assert_eq!(clam::arg_min(&Vec::new()), None);
    assert_eq!(clam::pos_val(&vec![4, 7, 7], 7), Some((1, 7)));
    assert_eq!(clam::pos_val(&vec![4, 7, 7], 8), None);
}

#[test]
fn squishy_costs_and_trim() {
    let original = gen_tiny_data();
    let root = Ball::new_tree(&original, &PartitionCriteria::default(), Some(42));
    let mut perm_data = gen_tiny_data();
    let ob = from_ball_tree(root, &mut perm_data);
    let sq = clam::SquishyBall::from_offset_tree(&ob, &perm_data);
    assert_eq!(sq.cardinality, 5);
    // One leaf of five two-coordinate members: two header words plus five
    // length-prefixed encodings.
    assert_eq!(sq.unitary_cost, 16 + 5 * (8 + 8 * 2));
    let trimmed = sq.trim();
    assert_trimmed(&trimmed);
    // With fixed-width encodings, splitting only adds headers, so the whole
    // tree collapses into one leaf.
    assert!(trimmed.children.is_empty());
    assert_eq!(trimmed.cardinality, 5);
}

fn assert_trimmed(sq: &clam::SquishyBall) {
    if !sq.children.is_empty() {
        assert!(sq.recursive_cost < sq.unitary_cost);
        for child in sq.children.iter() {
            assert_trimmed(&child.2);
        }
    }
}

#[test]
fn leaves_cover_depth_first() {
    let data = gen_tiny_data();
    let root = Ball::new_tree(&data, &PartitionCriteria::default(), Some(42));
    let leaves = root.leaves();
    let mut flattened: Vec<usize> = Vec::new();
    for leaf in leaves.iter() {
        assert!(leaf.children().is_empty());
        flattened.extend(leaf.indices());
    }
    let mut sorted = flattened.clone();
    sorted.sort();
    assert_eq!(sorted, vec![0, 1, 2, 3, 4]);
}

#[test]
fn clam_bake_works() {}
