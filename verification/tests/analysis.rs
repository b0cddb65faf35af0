//! Eigengap, clustering, quality and drift.

use std::collections::HashMap;

use nalgebra::{DMatrix, DVector};
use spectral_intelligence::clusters::{
    cluster_count, cluster_sizes, clusters_by_size, eigen_count,
};
use spectral_intelligence::drift::{
    compute_drift, drift_exceeds, take_snapshot, total_variation_distance, ClusterDrift,
    SpectralSnapshot, SIGNIFICANT_DRIFT,
};
use spectral_intelligence::eigen::{
    bottom_eigenpairs, eigengap_heuristic, gap_count, small_eigen_decomp, EigenMethod,
    PowerIteration, PowerStep,
};
use spectral_intelligence::kmeans::{
    nearest_centroid, spectral_clustering, weighted_choice, ColumnWindow, KMeans, KMeansStep,
    Seeding,
};
use spectral_intelligence::matrix::{build_matrices, laplacian};
use spectral_intelligence::ordering::{sort_indices, sort_numbers, Binary64};
use spectral_intelligence::quality::{embedding_quality_score, PairCounts, QualityScore};

fn pattern(value: f64) -> Binary64 {
    Binary64 { bits: value.to_bits() }
}

fn patterns(values: &[f64]) -> Vec<Binary64> {
    values.iter().map(|value| pattern(*value)).collect()
}

fn relative_gaps(eigenvalues: &[f64]) -> Vec<Binary64> {
    (1..gap_count(eigenvalues.len()) + 1)
        .map(|i| pattern((eigenvalues[i + 1] - eigenvalues[i]) / eigenvalues[i].abs().max(1e-10)))
        .collect()
}

fn adjusted_rand_index(score: QualityScore) -> f64 {
    match score {
        QualityScore::Unlabelled => 0.0,
        QualityScore::Certain => 1.0,
        QualityScore::Index(counts) => {
            let a = counts.same_cluster as f64;
            let b = counts.same_label as f64;
            let expected = a * b / counts.pairs as f64;
            (counts.agreeing as f64 - expected) / (0.5 * (a + b) - expected)
        }
    }
}

fn cosine_distance(a: &DVector<f64>, b: &DVector<f64>) -> f64 {
    let norm_a = a.norm();
    let norm_b = b.norm();
    if norm_a < 1e-15 || norm_b < 1e-15 {
        return 1.0;
    }
    1.0 - a.dot(b) / (norm_a * norm_b)
}

fn drift_score(baseline: &SpectralSnapshot, eigenvalues: &[f64], sizes: &[usize]) -> f64 {
    let terms = compute_drift(baseline, &patterns(eigenvalues), sizes);
    let count = terms.eigenvalue_count;
    let before: Vec<f64> =
        baseline.eigenvalues[..count].iter().map(|value| f64::from_bits(value.bits)).collect();
    let eigen_drift =
        cosine_distance(&DVector::from_vec(before), &DVector::from_row_slice(&eigenvalues[..count]));
    let cluster_drift = match terms.cluster_drift {
        ClusterDrift::Undefined => f64::NAN,
        ClusterDrift::Distance { numerator, denominator } => numerator as f64 / denominator as f64,
    };
    0.6 * eigen_drift + 0.4 * cluster_drift
}

fn labels(names: &[&str]) -> HashMap<usize, String> {
    names.iter().enumerate().map(|(i, name)| (i, name.to_string())).collect()
}

#[test]
fn test_eigengap_heuristic() {
    // Eigenvalues with clear gap after 3rd
    let eigenvalues = [0.0, 0.01, 0.02, 2.5, 3.0, 3.5];
    let k = eigengap_heuristic(eigenvalues.len(), &relative_gaps(&eigenvalues));
    assert_eq!(k, 3);
}

#[test]
fn test_spectral_clustering_two_clusters() {
    // Two well-separated cliques with a single bridge
    let adj = vec![
        // Cluster 1: nodes 0-3
        vec![1, 2, 3],
        vec![0, 2, 3],
        vec![0, 1, 3],
        vec![0, 1, 2, 4], // bridge to node 4
        // Cluster 2: nodes 4-7
        vec![3, 5, 6, 7],
        vec![4, 6, 7],
        vec![4, 5, 7],
        vec![4, 5, 6],
    ];
    let (a, d) = build_matrices(&adj, 8);
    let l = laplacian(&d, &a);
    let decomposed = DMatrix::from_fn(8, 8, |i, j| l.entry(i, j) as f64).symmetric_eigen();
    let values: Vec<f64> = decomposed.eigenvalues.iter().cloned().collect();
    let (method, count) = bottom_eigenpairs(8, 3);
    assert_eq!(method, EigenMethod::Full);
    let bottom = small_eigen_decomp(&patterns(&values), count);

    let (window, mut clustering) = spectral_clustering(8, bottom.len(), 2);
    assert_eq!(window, ColumnWindow { clusters: 2, start: 1, count: 2 });
    let data: Vec<DVector<f64>> = (0..8)
        .map(|i| {
            let row: Vec<f64> = bottom.iter().map(|j| decomposed.eigenvectors[(i, *j)]).collect();
            let entries = window.select(&patterns(&row));
            let row = DVector::from_fn(window.count, |j, _| f64::from_bits(entries[j].bits));
            let norm = row.norm();
            if norm > 1e-10 {
                row / norm
            } else {
                row
            }
        })
        .collect();
    // A node of each clique, away from the bridge.
    let mut centroids = vec![data[0].clone(), data[5].clone()];
    let mut converged = false;
    while clustering.rounds > 0 && !converged {
        let nearest = data
            .iter()
            .map(|point| {
                let distances: Vec<Binary64> = centroids
                    .iter()
                    .map(|centroid| pattern((point - centroid).norm_squared()))
                    .collect();
                nearest_centroid(&distances)
            })
            .collect();
        match clustering.advance(nearest) {
            KMeansStep::Converged => converged = true,
            KMeansStep::Recenter { members } => {
                for (c, points) in members.iter().enumerate() {
                    if !points.is_empty() {
                        let mut sum = DVector::zeros(window.count);
                        for i in points {
                            sum += &data[*i];
                        }
                        centroids[c] = sum / points.len() as f64;
                    }
                }
            }
        }
    }
    assert!(converged);
    let assignments = clustering.assignments;

    // Nodes 0-3 should be in one cluster, 4-7 in another
    let c0 = assignments[0];
    for i in 1..4 {
        assert_eq!(assignments[i], c0, "Node {} should be in same cluster as 0", i);
    }
    let c4 = assignments[4];
    assert_ne!(c0, c4, "Clusters should be different");
    for i in 5..8 {
        assert_eq!(assignments[i], c4, "Node {} should be in same cluster as 4", i);
    }
}

#[test]
fn test_embedding_quality_perfect() {
    let assignments = vec![0, 0, 0, 1, 1, 1];
    let labels = labels(&["a", "a", "a", "b", "b", "b"]);

    let score = adjusted_rand_index(embedding_quality_score(&assignments, &labels, 2));
    assert!((score - 1.0).abs() < 1e-6);
}

#[test]
fn test_embedding_quality_random() {
    let assignments = vec![0, 1, 0, 1, 0, 1];
    let labels = labels(&["a", "a", "a", "b", "b", "b"]);

    let score = adjusted_rand_index(embedding_quality_score(&assignments, &labels, 2));
    // Should be low (close to 0 or negative)
    assert!(score < 0.3, "Random assignments should score low, got {}", score);
}

#[test]
fn test_drift_detection() {
    let baseline = SpectralSnapshot {
        vector_count: 1000,
        cluster_count: 3,
        eigenvalues: patterns(&[0.0, 0.1, 0.2, 1.5, 2.0]),
        cheeger_constant: pattern(0.3),
        cluster_sizes: vec![300, 400, 300],
        quality_score: None,
        drift_score: None,
    };

    // Same distribution, low drift
    let current_sizes = vec![305, 395, 300];
    let drift = drift_score(&baseline, &[0.0, 0.11, 0.21, 1.52, 2.01], &current_sizes);
    assert!(drift < 0.1, "Similar distributions should have low drift, got {}", drift);

    // Very different distribution, high drift
    let current_sizes = vec![800, 100, 100];
    let drift = drift_score(&baseline, &[0.0, 0.5, 1.2, 3.0, 5.0], &current_sizes);
    assert!(drift > 0.1, "Different distributions should have high drift, got {}", drift);
}

#[test]
fn test_cluster_sizes() {
    let assignments = vec![0, 1, 0, 2, 1, 0];
    let sizes = cluster_sizes(&assignments, 3);
    assert_eq!(sizes, vec![3, 2, 1]);
}

#[test]
fn points_in_no_cluster_are_not_counted() {
    let sizes = cluster_sizes(&[0, 5, 1, 1], 2);
    assert_eq!(sizes, vec![1, 2]);
    // Three of the four points are in one of the clusters.
    assert_eq!(sizes.iter().sum::<usize>(), 3);
    assert_eq!(cluster_sizes(&[0, 1], 0), Vec::<usize>::new());
}

#[test]
fn larger_clusters_come_first() {
    assert_eq!(clusters_by_size(&vec![2, 5, 2, 9]), vec![3, 1, 0, 2]);
}

#[test]
fn eigenpairs_asked_for() {
    assert_eq!(eigen_count(0, 1000), 10);
    assert_eq!(eigen_count(20, 1000), 22);
    assert_eq!(eigen_count(20, 15), 15);
    assert_eq!(eigen_count(20, 3), 10);
}

#[test]
fn method_by_size() {
    assert_eq!(bottom_eigenpairs(512, 10), (EigenMethod::Full, 10));
    assert_eq!(bottom_eigenpairs(513, 10), (EigenMethod::Iterative, 10));
    assert_eq!(bottom_eigenpairs(3, 10), (EigenMethod::Full, 3));
}

#[test]
fn lowest_eigenvalues_in_order() {
    let values = patterns(&[3.0, -1.0, 0.0, -0.0, 2.0]);
    assert_eq!(small_eigen_decomp(&values, 4), vec![1, 2, 3, 4]);
}

#[test]
fn few_eigenvalues_give_two_clusters() {
    assert_eq!(eigengap_heuristic(0, &vec![]), 2);
    assert_eq!(eigengap_heuristic(2, &vec![]), 2);
    // Equal eigenvalues have no gap.
    assert_eq!(eigengap_heuristic(4, &relative_gaps(&[0.0, 1.0, 1.0, 1.0])), 2);
}

#[test]
fn gaps_past_the_limit_are_not_looked_at() {
    let mut eigenvalues: Vec<f64> = (0..60).map(|i| i as f64 + 100.0).collect();
    eigenvalues[30] = 131.5;
    eigenvalues[55] = 1000.0;
    assert_eq!(gap_count(60), 48);
    assert_eq!(eigengap_heuristic(60, &relative_gaps(&eigenvalues)), 30);
}

#[test]
fn gaps_that_are_no_numbers_do_not_count() {
    assert_eq!(eigengap_heuristic(5, &patterns(&[f64::NAN, 0.5, f64::NAN])), 3);
}

#[test]
fn power_iteration_stops() {
    let tol = pattern(1e-8);
    let mut iteration = PowerIteration::new(2);
    assert_eq!(iteration.step(pattern(1.0), pattern(0.5), tol), PowerStep::Continue);
    assert_eq!(iteration.step(pattern(1.0), pattern(0.5), tol), PowerStep::Accept);
    assert_eq!(iteration.remaining, 0);
    let mut iteration = PowerIteration::new(9);
    assert_eq!(iteration.step(pattern(1.0), pattern(1e-9), tol), PowerStep::Accept);
    assert_eq!(iteration.step(pattern(1e-16), pattern(1e-9), tol), PowerStep::Discard);
    assert_eq!(iteration.step(pattern(1e-15), pattern(1.0), tol), PowerStep::Continue);
}

#[test]
fn order_of_bit_patterns_is_order_of_numbers() {
    let values =
        [f64::NEG_INFINITY, -2.5, -1e-300, 0.0, 1e-300, 1.0, 1.5, 1e300, f64::INFINITY, f64::NAN];
    for a in values {
        assert_eq!(pattern(a).is_nan(), a.is_nan());
        for b in values {
            assert_eq!(pattern(a).is_below(pattern(b)), a < b);
        }
    }
    assert!(!pattern(-0.0).is_below(pattern(0.0)));
    assert_eq!(pattern(-0.0).to_rank(), 0);
}

#[test]
fn sorting_is_stable() {
    assert_eq!(sort_indices(&vec![3, 1, 2, 1, 3, 1]), vec![1, 3, 5, 2, 0, 4]);
    assert_eq!(sort_indices(&vec![]), Vec::<usize>::new());
    assert_eq!(sort_numbers(&patterns(&[0.5, -0.5, 0.5])), vec![1, 0, 2]);
}

#[test]
fn nearest_of_several_centroids() {
    assert_eq!(nearest_centroid(&patterns(&[2.0, 0.5, 0.5, 1.0])), 1);
    assert_eq!(nearest_centroid(&patterns(&[f64::NAN, 0.5])), 1);
    assert_eq!(nearest_centroid(&patterns(&[f64::INFINITY, f64::NAN])), 0);
    assert_eq!(nearest_centroid(&vec![]), 0);
}

#[test]
fn columns_without_one_to_spare() {
    let (window, clustering) = spectral_clustering(5, 3, 4);
    assert_eq!(window, ColumnWindow { clusters: 4, start: 0, count: 3 });
    assert_eq!(clustering.assignments, vec![0; 5]);
    assert_eq!(clustering.rounds, 50);
    let (window, _) = spectral_clustering(2, 3, 4);
    assert_eq!(window, ColumnWindow { clusters: 2, start: 1, count: 2 });
}

#[test]
fn rounds_of_clustering() {
    let mut clustering = KMeans::new(4, 2);
    match clustering.advance(vec![0, 1, 1, 0]) {
        KMeansStep::Recenter { members } => assert_eq!(members, vec![vec![0, 3], vec![1, 2]]),
        KMeansStep::Converged => panic!("the clusters changed"),
    }
    assert!(matches!(clustering.advance(vec![0, 1, 1, 0]), KMeansStep::Converged));
    assert_eq!(clustering.rounds, 48);
    let mut empty = KMeans::new(2, 0);
    assert!(matches!(empty.advance(vec![0, 0]), KMeansStep::Converged));
}

#[test]
fn a_weighted_draw_falls_where_it_is_spent() {
    assert_eq!(weighted_choice(&patterns(&[0.5, 0.25, 0.0, -1.0])), 2);
    assert_eq!(weighted_choice(&patterns(&[0.5, 0.25])), 0);
    assert_eq!(weighted_choice(&patterns(&[f64::NAN, -0.5])), 1);
}

#[test]
fn seeds_are_points() {
    let mut seeding = Seeding::new(3, 3);
    assert_eq!(seeding.chosen.len(), 1);
    assert!(seeding.is_incomplete());
    seeding.choose_weighted(&patterns(&[1.0, -0.5, -1.0]));
    assert_eq!(seeding.chosen[1], 1);
    seeding.choose_any();
    assert!(!seeding.is_incomplete());
    assert!(seeding.chosen.iter().all(|point| *point < 3));
    let mut seeding = Seeding::new(3, 4);
    let remainders = patterns(&[1.0, 0.5, -1.0]);
    seeding.choose_next(pattern(2.0), &remainders);
    assert_eq!(seeding.chosen[1], 2);
    seeding.choose_next(pattern(f64::NAN), &remainders);
    assert_eq!(seeding.chosen[2], 2);
    seeding.choose_next(pattern(0.0), &remainders);
    assert_eq!(seeding.chosen.len(), 4);
    assert!(seeding.chosen[3] < 3);
    assert!(Seeding::all_chosen(pattern(0.0)));
    assert!(!Seeding::all_chosen(pattern(1e-14)));
    assert!(Seeding::new(0, 3).chosen.is_empty());
    assert!(!Seeding::new(3, 0).is_incomplete());
}

#[test]
fn seeds_vary() {
    let first = Seeding::new(1000, 1).chosen[0];
    assert!((0..50).any(|_| Seeding::new(1000, 1).chosen[0] != first));
}

#[test]
fn pairs_are_counted() {
    let score = embedding_quality_score(&[0, 0, 1, 1], &labels(&["x", "x", "x", "y"]), 2);
    let counts = PairCounts { pairs: 6, agreeing: 1, same_cluster: 2, same_label: 3 };
    assert_eq!(score, QualityScore::Index(counts));
    assert_eq!(adjusted_rand_index(score), 0.0);
}

#[test]
fn scores_at_the_edges() {
    assert_eq!(embedding_quality_score(&[], &labels(&["a"]), 0), QualityScore::Unlabelled);
    assert_eq!(embedding_quality_score(&[0, 1], &HashMap::new(), 2), QualityScore::Unlabelled);
    // All alike on both sides, and all different on both sides.
    assert_eq!(embedding_quality_score(&[3, 3], &labels(&["a", "a"]), 1), QualityScore::Certain);
    assert_eq!(embedding_quality_score(&[0, 1], &labels(&["a", "b"]), 2), QualityScore::Certain);
    // One labelled point makes no pair, and matches.
    let single = embedding_quality_score(&[0], &labels(&["a"]), 1);
    assert_eq!(single, QualityScore::Certain);
    assert_eq!(adjusted_rand_index(single), 1.0);
}

#[test]
fn worse_than_random_is_negative() {
    let score = embedding_quality_score(&[0, 0, 1, 1], &labels(&["x", "y", "x", "y"]), 2);
    assert!(adjusted_rand_index(score) < 0.0);
}

#[test]
fn distance_of_distributions() {
    let distance = |left: &[usize], right: &[usize]| match total_variation_distance(left, right) {
        ClusterDrift::Undefined => None,
        ClusterDrift::Distance { numerator, denominator } => Some((numerator, denominator)),
    };
    assert_eq!(distance(&[300, 400, 300], &[305, 395, 300]), Some((5000, 1000000)));
    assert_eq!(distance(&[1, 1], &[2, 2]), Some((0, 8)));
    assert_eq!(distance(&[1], &[0, 1]), Some((1, 1)));
    assert_eq!(distance(&[], &[3]), Some((1, 2)));
    assert_eq!(distance(&[], &[]), Some((0, 1)));
    assert_eq!(distance(&[0, 0], &[3]), None);
    assert_eq!(distance(&[3], &[0]), None);
}

#[test]
fn significant_drift() {
    let threshold = Binary64 { bits: SIGNIFICANT_DRIFT };
    assert_eq!(f64::from_bits(SIGNIFICANT_DRIFT), 0.15);
    assert!(drift_exceeds(pattern(0.16), threshold));
    assert!(!drift_exceeds(pattern(0.15), threshold));
    assert!(!drift_exceeds(pattern(f64::NAN), threshold));
}

#[test]
fn clusters_requested_or_detected() {
    assert_eq!(cluster_count(7, 3), 7);
    assert_eq!(cluster_count(0, 3), 3);
}

#[test]
fn cluster_sizes_add_up() {
    let assignments = [2, 0, 1, 1, 2, 2, 0];
    let sizes = cluster_sizes(&assignments, 3);
    assert_eq!(sizes.iter().sum::<usize>(), assignments.len());
}

#[test]
fn a_snapshot_keeps_the_lowest_eigenvalues() {
    let values = patterns(&[0.0, 0.1, 0.2, 0.3, 0.4]);
    let taken =
        take_snapshot(9, 1, values.clone(), pattern(0.5), vec![9], Some(pattern(1.0)), None);
    assert_eq!((taken.vector_count, taken.cluster_count), (9, 1));
    assert_eq!(taken.eigenvalues, values[..3].to_vec());
    assert_eq!(taken.cheeger_constant, pattern(0.5));
    assert_eq!(taken.cluster_sizes, vec![9]);
    assert_eq!((taken.quality_score, taken.drift_score), (Some(pattern(1.0)), None));
    let taken = take_snapshot(9, 8, values.clone(), pattern(0.5), vec![9], None, None);
    assert_eq!(taken.eigenvalues, values);
}

#[test]
fn names_of_clusters_and_labels_do_not_matter() {
    let score = embedding_quality_score(&[0, 0, 1, 1], &labels(&["x", "x", "x", "y"]), 2);
    let renamed = embedding_quality_score(&[9, 9, 4, 4], &labels(&["q", "q", "q", "p"]), 2);
    assert_eq!(score, renamed);
}

#[test]
fn drift_is_symmetric_and_at_most_one() {
    for (left, right) in [([3, 0, 1], [1, 1, 1]), ([1, 0, 0], [0, 0, 5]), ([2, 2, 4], [1, 1, 2])] {
        let drift = total_variation_distance(&left, &right);
        assert_eq!(drift, total_variation_distance(&right, &left));
        match drift {
            ClusterDrift::Undefined => panic!("both are distributions"),
            ClusterDrift::Distance { numerator, denominator } => {
                assert!(numerator <= denominator);
                assert_eq!(numerator == 0, left == [2, 2, 4]);
            }
        }
    }
}

#[test]
fn terms_of_drift_are_symmetric() {
    let snapshot = |eigenvalues: &[f64], sizes: &[usize]| SpectralSnapshot {
        vector_count: 10,
        cluster_count: sizes.len(),
        eigenvalues: patterns(eigenvalues),
        cheeger_constant: pattern(0.5),
        cluster_sizes: sizes.to_vec(),
        quality_score: None,
        drift_score: None,
    };
    let one = snapshot(&[0.0, 0.5, 1.0], &[4, 6]);
    let two = snapshot(&[0.0, 0.25], &[1, 2, 7]);
    let terms = compute_drift(&one, &two.eigenvalues, &two.cluster_sizes);
    assert_eq!(terms.eigenvalue_count, 2);
    assert_eq!(terms, compute_drift(&two, &one.eigenvalues, &one.cluster_sizes));
}

#[test]
fn columns_outside_the_window_are_ignored() {
    let (window, _) = spectral_clustering(10, 5, 2);
    let left = window.select(&patterns(&[1.0, 2.0, 3.0, 4.0, 5.0]));
    let right = window.select(&patterns(&[-1.0, 2.0, 3.0, 0.0, 9.0]));
    assert_eq!(left, patterns(&[2.0, 3.0]));
    assert_eq!(left, right);
}

#[test]
fn equal_points_share_a_cluster() {
    let distances = [patterns(&[0.5, 0.25]), patterns(&[0.1, 0.2]), patterns(&[0.5, 0.25])];
    let mut clustering = KMeans::new(3, 2);
    clustering.advance(distances.iter().map(nearest_centroid).collect());
    assert_eq!(clustering.assignments, vec![1, 0, 1]);
}
