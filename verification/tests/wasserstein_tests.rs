//! The metric axioms of the earth-mover distances, checked on random
//! distributions.

use clam::wasserstein::{direct_flow, wasserstein};

const K: usize = 1000;

fn random_masses(seed: u64, n: usize) -> Vec<u64> {
    let mut state = seed.wrapping_mul(2862933555777941757).wrapping_add(3037000493);
    let mut out = Vec::new();
    for _ in 0..n {
        state = state.wrapping_mul(2862933555777941757).wrapping_add(3037000493);
        out.push((state >> 34) % 1_000_000);
    }
    out
}

#[test]
fn wasserstein_test() {
    let dirt = random_masses(1, K);
    let holes = random_masses(2, K);

    let t = std::time::Instant::now();
    let res = wasserstein(&dirt, &holes);
    let time = t.elapsed().as_secs_f64();

    println!("Time: {}", time);
    println!("{}", res);
}

#[test]
fn wasserstein_deep_tests() {
    for round in 0..100 {
        wasserstein_identity_round(round);
        wasserstein_symmetry_round(round);
        wasserstein_triangle_round(round);
    }
}

fn wasserstein_identity_round(seed: u64) {
    let dirt = random_masses(seed, 50);
    assert_eq!(wasserstein(&dirt, &dirt), 0);
}

fn wasserstein_symmetry_round(seed: u64) {
    let dirt = random_masses(seed * 2 + 1, 50);
    let holes = random_masses(seed * 2 + 2, 50);
    assert_eq!(wasserstein(&dirt, &holes), wasserstein(&holes, &dirt));
}

fn wasserstein_triangle_round(seed: u64) {
    let v1 = random_masses(seed * 3 + 1, 50);
    let v2 = random_masses(seed * 3 + 2, 50);
    let v3 = random_masses(seed * 3 + 3, 50);
    let d13 = wasserstein(&v1, &v3);
    let d12 = wasserstein(&v1, &v2);
    let d23 = wasserstein(&v2, &v3);
    assert!(d13 <= d12 + d23);
}

#[test]
fn wasserstein_identity_test() {
    let dirt = random_masses(11, K);
    assert_eq!(wasserstein(&dirt, &dirt), 0);
}

#[test]
fn wasserstein_symmetry_test() {
    let dirt = random_masses(12, K);
    let holes = random_masses(13, K);
    assert_eq!(wasserstein(&dirt, &holes), wasserstein(&holes, &dirt));
}

#[test]
fn wasserstein_triangle_inequality_test() {
    let v1 = random_masses(14, K);
    let v2 = random_masses(15, K);
    let v3 = random_masses(16, K);
    let d13 = wasserstein(&v1, &v3);
    let d12 = wasserstein(&v1, &v2);
    let d23 = wasserstein(&v2, &v3);
    assert!(d13 <= d12 + d23);
}

#[test]
fn direct_flow_test() {
    let dirt = random_masses(21, 10);
    let holes = random_masses(22, 10);

    let t = std::time::Instant::now();
    let res = direct_flow(&dirt, &holes);
    let time = t.elapsed().as_secs_f64();

    println!("Time: {}", time);
    println!("{}", res);
}

#[test]
fn direct_flow_deep_tests() {
    for round in 0..100 {
        direct_flow_identity_round(round);
        direct_flow_symmetry_round(round);
        direct_flow_triangle_round(round);
    }
}

fn direct_flow_identity_round(seed: u64) {
    let dirt = random_masses(seed + 500, 10);
    assert_eq!(direct_flow(&dirt, &dirt), 0);
}

fn direct_flow_symmetry_round(seed: u64) {
    let dirt = random_masses(seed * 2 + 501, 10);
    let holes = random_masses(seed * 2 + 502, 10);
    assert_eq!(direct_flow(&dirt, &holes), direct_flow(&holes, &dirt));
}

fn direct_flow_triangle_round(seed: u64) {
    let v1 = random_masses(seed * 3 + 601, 10);
    let v2 = random_masses(seed * 3 + 602, 10);
    let v3 = random_masses(seed * 3 + 603, 10);
    let d13 = direct_flow(&v1, &v3);
    let d12 = direct_flow(&v1, &v2);
    let d23 = direct_flow(&v2, &v3);
    assert!(d13 <= d12 + d23);
}

#[test]
fn direct_flow_identity_test() {
    let dirt = random_masses(31, 10);
    assert_eq!(direct_flow(&dirt, &dirt), 0);
}

#[test]
fn direct_flow_symmetry_test() {
    let dirt = random_masses(32, 10);
    let holes = random_masses(33, 10);
    assert_eq!(direct_flow(&dirt, &holes), direct_flow(&holes, &dirt));
}

#[test]
fn direct_flow_triangle_inequality_test() {
    let v1 = random_masses(34, 10);
    let v2 = random_masses(35, 10);
    let v3 = random_masses(36, 10);
    let d13 = direct_flow(&v1, &v3);
    let d12 = direct_flow(&v1, &v2);
    let d23 = direct_flow(&v2, &v3);
    assert!(d13 <= d12 + d23);
}

#[test]
fn direct_flow_vs_wasserstein_test() {
    let dirt = random_masses(41, K);
    let holes = random_masses(42, K);

    let t = std::time::Instant::now();
    let direct_flow_result = direct_flow(&dirt, &holes);
    let df_time = t.elapsed().as_secs_f64();
    let t = std::time::Instant::now();
    let wasserstein_result = wasserstein(&dirt, &holes);
    let w_time = t.elapsed().as_secs_f64();

    println!("Direct-Flow Time: {}", df_time);
    println!("Wasserstein Time: {}", w_time);
    println!("Direct-Flow distance: {}", direct_flow_result);
    println!("Wasserstein distance: {}", wasserstein_result);
}

#[test]
fn wasserstein_exact_value() {
    // Two units of mass at the last location against two at the first must
    // travel the whole line.
    let x: Vec<u64> = vec![0, 0, 0, 2];
    let y: Vec<u64> = vec![2, 0, 0, 0];
    assert_eq!(wasserstein(&x, &y), 6);
    let x: Vec<u64> = vec![1, 1];
    let y: Vec<u64> = vec![1, 1];
    assert_eq!(wasserstein(&x, &y), 0);
    assert_eq!(direct_flow(&vec![5, 1], &vec![2, 4]), 6);
}
