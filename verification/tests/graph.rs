//! Loading of graphs and labels, matrices, conductance, and synthetic graphs.

use nalgebra::DMatrix;
use spectral_intelligence::adjacency::{
    adjacency_from_lines, adjacency_to_json, load_adjacency, parse_text_adjacency, AdjacencyError,
    AdjacencyList, NodeLine,
};
use spectral_intelligence::cheeger::{check_sweepable, cheeger_constant, Ratio};
use spectral_intelligence::eigen::{bottom_eigenpairs, small_eigen_decomp, EigenMethod};
use spectral_intelligence::labels::{labels_from_pairs, load_labels, LabelsError};
use spectral_intelligence::matrix::{build_matrices, laplacian, IntegerMatrix};
use spectral_intelligence::ordering::Binary64;
use spectral_intelligence::synthetic::{
    assign_clusters, generate_synthetic, graph_from_edges, synthetic_from_draw,
};
use spectral_intelligence::text::{chars_of, decimal_text, parse_number};

fn pattern(value: f64) -> Binary64 {
    Binary64 { bits: value.to_bits() }
}

fn patterns(values: &[f64]) -> Vec<Binary64> {
    values.iter().map(|value| pattern(*value)).collect()
}

fn to_floats(matrix: &IntegerMatrix) -> DMatrix<f64> {
    let n = matrix.rows();
    DMatrix::from_fn(n, n, |i, j| matrix.entry(i, j) as f64)
}

/// The lowest `k` eigenvalues of the Laplacian of a graph, and their eigenvectors as columns.
fn eigenpairs(adj: &AdjacencyList, k: usize) -> (Vec<f64>, Vec<Vec<f64>>) {
    let (a, d) = build_matrices(adj, adj.len());
    let l = laplacian(&d, &a);
    let (method, count) = bottom_eigenpairs(l.rows(), k);
    assert_eq!(method, EigenMethod::Full);
    let decomposed = to_floats(&l).symmetric_eigen();
    let values: Vec<f64> = decomposed.eigenvalues.iter().cloned().collect();
    let bottom = small_eigen_decomp(&patterns(&values), count);
    let eigenvalues = bottom.iter().map(|i| values[*i]).collect();
    let eigenvectors = bottom
        .iter()
        .map(|i| decomposed.eigenvectors.column(*i).iter().cloned().collect())
        .collect();
    (eigenvalues, eigenvectors)
}

fn triangles() -> AdjacencyList {
    vec![vec![1, 2], vec![0, 2], vec![0, 1], vec![4, 5], vec![3, 5], vec![3, 4]]
}

#[test]
fn test_laplacian_basic() {
    // Triangle graph: fully connected 3 nodes
    let adj = vec![vec![1, 2], vec![0, 2], vec![0, 1]];
    let (a, d) = build_matrices(&adj, 3);
    let l = laplacian(&d, &a);

    // L for triangle: each row sums to 0
    assert_eq!(l.entry(0, 0), 2);
    assert_eq!(l.entry(0, 1), -1);
    assert_eq!(l.entry(0, 2), -1);

    // Row sum should be 0
    for i in 0..3 {
        let row_sum: i64 = (0..3).map(|j| l.entry(i, j)).sum();
        assert_eq!(row_sum, 0);
    }
}

#[test]
fn test_fiedler_value_disconnected() {
    // Two disconnected triangles
    let (eigenvalues, _) = eigenpairs(&triangles(), 3);

    // Second eigenvalue should be 0 for disconnected graph
    assert!(eigenvalues[0].abs() < 1e-6);
    assert!(eigenvalues[1].abs() < 1e-6);
    // Third eigenvalue should be > 0
    assert!(eigenvalues[2] > 0.0);
}

#[test]
fn test_cheeger_constant_connected() {
    // Complete graph K4: Cheeger constant should be high
    let adj = vec![vec![1, 2, 3], vec![0, 2, 3], vec![0, 1, 3], vec![0, 1, 2]];
    let (_, eigenvectors) = eigenpairs(&adj, 2);
    let fiedler = patterns(&eigenvectors[1]);

    let constant = cheeger_constant(&adj, &fiedler);
    let h = constant.numerator as f64 / constant.denominator as f64;
    assert!(h > 0.3, "Cheeger constant for K4 should be > 0.3, got {}", h);
    // Four of the edges cross a cut through the middle, whose sides have a volume of six each.
    assert_eq!(constant, Ratio { numerator: 4, denominator: 6 });
}

#[test]
fn test_generate_and_load_adjacency() {
    let adj = generate_synthetic(100, 4);
    assert_eq!(adj.len(), 100);

    // Serialize and reload
    let json = adjacency_to_json(&adj);
    let loaded = load_adjacency(&json).unwrap();
    assert_eq!(loaded.len(), 100);
    assert_eq!(loaded[0], adj[0]);
    assert_eq!(loaded, adj);
}

#[test]
fn test_load_labels_array() {
    let labels = load_labels("[0, 0, 1, 1, 2]").unwrap();
    assert_eq!(labels[&0], "0");
    assert_eq!(labels[&4], "2");
    assert_eq!(labels.len(), 5);
}

#[test]
fn test_load_labels_object() {
    let labels = load_labels(r#"{"0":"docs","1":"code","2":"docs"}"#).unwrap();
    assert_eq!(labels[&0], "docs");
    assert_eq!(labels[&1], "code");
    assert_eq!(labels.len(), 3);
}

#[test]
fn labels_are_written_in_decimal() {
    let labels = load_labels("[10, 4096, 0]").unwrap();
    assert_eq!(labels[&0], "10");
    assert_eq!(labels[&1], "4096");
    assert_eq!(labels[&2], "0");
}

#[test]
fn label_keys_that_name_no_vector_are_passed_over() {
    let labels = load_labels(r#"{"0":"a","x":"b","-1":"c","+7":"d"}"#).unwrap();
    assert_eq!(labels.len(), 2);
    assert_eq!(labels[&0], "a");
    assert_eq!(labels[&7], "d");
}

#[test]
fn of_two_pairs_for_one_vector_the_last_counts() {
    let pairs = vec![
        ("1".to_string(), "first".to_string()),
        ("01".to_string(), "second".to_string()),
    ];
    let labels = labels_from_pairs(&pairs);
    assert_eq!(labels.len(), 1);
    assert_eq!(labels[&1], "second");
}

#[test]
fn unreadable_labels_are_an_error() {
    assert_eq!(load_labels("not json").unwrap_err(), LabelsError);
    assert_eq!(load_labels(r#"{"0": 1}"#).unwrap_err(), LabelsError);
}

#[test]
fn adjacency_from_a_json_array() {
    let adj = load_adjacency("[[1, 2], [0], []]").unwrap();
    assert_eq!(adj, vec![vec![1, 2], vec![0], vec![]]);
    // An empty array is an adjacency list too.
    assert_eq!(load_adjacency("[]").unwrap(), Vec::<Vec<usize>>::new());
}

#[test]
fn adjacency_from_a_json_object() {
    let adj = load_adjacency(r#"{"version": 1, "neighbors": [[1], [0]]}"#).unwrap();
    assert_eq!(adj, vec![vec![1], vec![0]]);
}

#[test]
fn adjacency_from_text() {
    let content = "# a comment\n0 1 2\r\n\n  1 0 x 2\n\t4 0\n";
    let adj = load_adjacency(content).unwrap();
    assert_eq!(adj, vec![vec![1, 2], vec![0, 2], vec![], vec![], vec![0]]);
}

#[test]
fn a_text_line_without_a_node_describes_the_next_one() {
    let adj = parse_text_adjacency("a 1\nb 0\n0 5 6").unwrap();
    assert_eq!(adj, vec![vec![5, 6], vec![0]]);
}

#[test]
fn numbers_in_text_are_plain_decimals() {
    let adj = parse_text_adjacency("+0 1 -1 1.0 1_0 18446744073709551616 007").unwrap();
    assert_eq!(adj, vec![vec![1, 7]]);
}

#[test]
fn every_unicode_white_space_separates_words() {
    let adj = parse_text_adjacency("0\u{a0}1\u{3000}2\u{2003}3\u{200b}4").unwrap();
    assert_eq!(adj, vec![vec![1, 2]]);
}

#[test]
fn empty_text_is_no_adjacency() {
    assert_eq!(load_adjacency("").unwrap_err(), AdjacencyError::Unreadable);
    assert_eq!(load_adjacency("# nothing\n\n").unwrap_err(), AdjacencyError::Unreadable);
}

#[test]
fn a_node_past_all_lengths_is_an_error() {
    let content = format!("{} 0", usize::MAX);
    assert_eq!(parse_text_adjacency(&content).unwrap_err(), AdjacencyError::TooManyNodes);
}

#[test]
fn lines_are_placed_in_order() {
    let lines = vec![
        NodeLine { node: Some(2), neighbors: vec![0] },
        NodeLine { node: None, neighbors: vec![2] },
        NodeLine { node: Some(0), neighbors: vec![3] },
    ];
    assert_eq!(adjacency_from_lines(lines), vec![vec![3], vec![], vec![0], vec![2]]);
}

#[test]
fn matrices_of_a_one_way_edge() {
    let (a, d) = build_matrices(&vec![vec![1], vec![]], 2);
    assert_eq!((a.rows(), a.columns()), (2, 2));
    assert_eq!((a.entry(0, 0), a.entry(0, 1)), (0, 1));
    assert_eq!((a.entry(1, 0), a.entry(1, 1)), (1, 0));
    assert_eq!((d.entry(0, 0), d.entry(0, 1)), (1, 0));
    assert_eq!((d.entry(1, 0), d.entry(1, 1)), (0, 1));
    let l = laplacian(&d, &a);
    assert_eq!((l.entry(0, 0), l.entry(0, 1)), (1, -1));
    assert_eq!((l.entry(1, 0), l.entry(1, 1)), (-1, 1));
}

#[test]
fn a_neighbor_counts_once_and_if_it_exists() {
    // Node 0 lists node 1 twice, and a node that does not exist.
    let (a, d) = build_matrices(&vec![vec![1, 9, 1], vec![0]], 2);
    assert_eq!((a.entry(0, 1), a.entry(1, 0)), (1, 1));
    assert_eq!((d.entry(0, 0), d.entry(1, 1)), (1, 1));
}

#[test]
fn conductance_of_a_path() {
    // 0 - 1 - 2 - 3: one edge crosses the middle, with a volume of three on either side.
    let adj = vec![vec![1], vec![0, 2], vec![1, 3], vec![2]];
    let fiedler = patterns(&[-1.0, -0.5, 0.5, 1.0]);
    assert!(check_sweepable(&adj, &fiedler));
    assert_eq!(cheeger_constant(&adj, &fiedler), Ratio { numerator: 1, denominator: 3 });
}

#[test]
fn conductance_of_two_components_is_zero() {
    let fiedler = patterns(&[-1.0, -1.0, -1.0, 1.0, 1.0, 1.0]);
    assert_eq!(cheeger_constant(&triangles(), &fiedler), Ratio { numerator: 0, denominator: 6 });
}

#[test]
fn conductance_without_cuts_or_edges() {
    let none = Ratio { numerator: 0, denominator: 1 };
    assert_eq!(cheeger_constant(&vec![], &vec![]), none);
    assert_eq!(cheeger_constant(&vec![vec![]], &vec![]), none);
    assert_eq!(cheeger_constant(&vec![vec![], vec![]], &patterns(&[0.0, 1.0])), none);
    // The only edge crosses the only cut.
    assert_eq!(
        cheeger_constant(&vec![vec![1], vec![0]], &patterns(&[0.0, 1.0])),
        Ratio { numerator: 1, denominator: 1 }
    );
}

#[test]
fn a_sweep_needs_numbers_and_nodes() {
    let adj = vec![vec![1], vec![0]];
    assert!(check_sweepable(&adj, &patterns(&[0.0, 1.0])));
    assert!(!check_sweepable(&adj, &patterns(&[0.0])));
    assert!(!check_sweepable(&adj, &patterns(&[0.0, f64::NAN])));
    assert!(!check_sweepable(&vec![vec![2], vec![0]], &patterns(&[0.0, 1.0])));
}

#[test]
fn clusters_of_synthetic_nodes() {
    assert_eq!(assign_clusters(7, 3), vec![0, 0, 1, 1, 2, 2, 2]);
    assert_eq!(assign_clusters(0, 3), Vec::<usize>::new());
}

#[test]
fn edges_are_added_once() {
    let adj = graph_from_edges(3, &vec![(0, 1), (1, 0), (2, 2), (1, 2), (0, 1)]);
    assert_eq!(adj, vec![vec![1], vec![0, 2], vec![1]]);
}

#[test]
fn synthetic_graph_of_a_given_draw() {
    let targets = vec![vec![1], vec![0, 1], vec![3], vec![]];
    let pairs = vec![(0, 1), (0, 2), (2, 0)];
    let adj = synthetic_from_draw(4, 2, &targets, &pairs);
    assert_eq!(adj, vec![vec![1, 2], vec![0], vec![3, 0], vec![2]]);
}

#[test]
fn generated_graphs_are_simple_and_clustered() {
    let n = 120;
    let adj = generate_synthetic(n, 4);
    let clusters = assign_clusters(n, 4);
    let mut crossing = 0;
    for a in 0..n {
        assert!(adj[a].len() >= 1);
        for b in &adj[a] {
            assert_ne!(*b, a);
            assert!(adj[*b].contains(&a));
            assert_eq!(adj[a].iter().filter(|c| *c == b).count(), 1);
            if clusters[a] != clusters[*b] {
                crossing += 1;
            }
        }
    }
    assert!(crossing / 2 <= n / 20);
    let listed: usize = adj.iter().map(|list| list.len()).sum();
    assert!((listed - crossing) / 2 <= 7 * n);
}

#[test]
fn generated_graphs_vary() {
    let first = generate_synthetic(200, 2);
    assert!((0..20).any(|_| generate_synthetic(200, 2) != first));
}

#[test]
fn numbers_are_read_as_written() {
    for number in [0, 7, 10, 90210, usize::MAX] {
        assert_eq!(decimal_text(number), number.to_string());
        assert_eq!(parse_number(&chars_of(&decimal_text(number))), Some(number));
    }
}

#[test]
fn the_laplacian_is_symmetric_and_vanishes_on_all_lists() {
    let adj = vec![vec![1, 1, 2], vec![], vec![2, 8], vec![0]];
    let (a, d) = build_matrices(&adj, 4);
    let l = laplacian(&d, &a);
    for i in 0..4 {
        assert_eq!((0..4).map(|j| l.entry(i, j)).sum::<i64>(), 0);
        assert_eq!((0..4).map(|j| l.entry(j, i)).sum::<i64>(), 0);
        for j in 0..4 {
            assert_eq!(l.entry(i, j), l.entry(j, i));
        }
    }
}

#[test]
fn the_quadratic_form_adds_up_squares_along_edges() {
    // The edges are 0 - 1, 0 - 2 and 0 - 3.
    let (a, d) = build_matrices(&vec![vec![1, 1, 2], vec![], vec![2, 8], vec![0]], 4);
    let l = laplacian(&d, &a);
    let x = [3, -1, 5, 3];
    let mut form = 0;
    for i in 0..4 {
        for j in 0..4 {
            form += x[i] * l.entry(i, j) * x[j];
        }
    }
    assert_eq!(form, 16 + 4);
}

#[test]
fn the_laplacian_takes_components_to_zero() {
    let (a, d) = build_matrices(&triangles(), 6);
    let l = laplacian(&d, &a);
    let x = [7, 7, 7, -2, -2, -2];
    for i in 0..6 {
        assert_eq!((0..6).map(|j| l.entry(i, j) * x[j]).sum::<i64>(), 0);
    }
    // Within a component the entries must not differ.
    let x = [7, 7, 6, -2, -2, -2];
    assert!((0..6).any(|i| (0..6).map(|j| l.entry(i, j) * x[j]).sum::<i64>() != 0));
}

#[test]
fn generated_graphs_can_be_swept() {
    let adj = generate_synthetic(90, 3);
    let fiedler: Vec<f64> = (0..90).map(|i| (i as f64).sin()).collect();
    let fiedler = patterns(&fiedler);
    assert!(check_sweepable(&adj, &fiedler));
    let constant = cheeger_constant(&adj, &fiedler);
    assert!(constant.numerator <= constant.denominator);
}

#[test]
fn the_cut_behind_the_first_node_counts() {
    // Both nodes list themselves and each other.
    let adj = vec![vec![0, 1], vec![0, 1]];
    let constant = cheeger_constant(&adj, &patterns(&[0.0, 1.0]));
    assert_eq!(constant, Ratio { numerator: 1, denominator: 2 });
}

#[test]
fn one_way_graphs_can_be_swept() {
    // 0 -> 1 -> 2 -> 0 and 2 -> 3 -> 2.
    let adj = vec![vec![1], vec![2], vec![0, 3], vec![2]];
    let fiedler = patterns(&[0.0, 0.5, 1.0, 2.0]);
    assert!(check_sweepable(&adj, &fiedler));
    // Behind 0 and 1 one edge crosses, with a volume of two in front and three behind.
    assert_eq!(cheeger_constant(&adj, &fiedler), Ratio { numerator: 1, denominator: 2 });
}

#[test]
fn the_constant_is_the_conductance_of_a_cut() {
    // A star: every cut has conductance one.
    let adj = vec![vec![1, 2, 3], vec![0], vec![0], vec![0]];
    let constant = cheeger_constant(&adj, &patterns(&[0.0, 1.0, 2.0, 3.0]));
    assert_eq!(constant, Ratio { numerator: 1, denominator: 1 });
    // With the center first, the cut behind it has conductance one as well.
    let constant = cheeger_constant(&adj, &patterns(&[9.0, 1.0, 2.0, 3.0]));
    assert_eq!(constant, Ratio { numerator: 1, denominator: 1 });
}
