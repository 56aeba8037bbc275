use auto_palette::clustering::dbscan::{label_points, LABEL_NOISE, LABEL_UNCLASSIFIED};
use auto_palette::clustering::dbscanpp::{build_clusters, label_core_points, OUTLIER};
use auto_palette::clustering::{CentroidInit, Initializer, SNICError, SNIC};
use auto_palette::matrix::{MatrixError, MatrixView};
use auto_palette::metrics::DistanceMetric;
use std::collections::HashSet;

fn sample_points(cols: usize, rows: usize) -> Vec<[f64; 2]> {
    vec![[0.0; 2]; cols * rows]
}

/// The points within `radius` of each point (itself included), by
/// squared Euclidean distance on integer coordinates.
fn neighborhoods(points: &[[i64; 2]], radius_squared: i64) -> Vec<Vec<usize>> {
    points
        .iter()
        .map(|p| {
            points
                .iter()
                .enumerate()
                .filter(|(_, q)| {
                    let dx = p[0] - q[0];
                    let dy = p[1] - q[1];
                    dx * dx + dy * dy <= radius_squared
                })
                .map(|(j, _)| j)
                .collect()
        })
        .collect()
}

#[test]
fn test_initialize_grid_cases() {
    let points = sample_points(12, 9);
    let matrix = MatrixView::new(12, 9, &points).unwrap();
    let cases: Vec<(usize, Vec<usize>)> = vec![
        (1, vec![65]),
        (2, vec![39, 46]),
        (4, vec![26, 31, 86, 91]),
        (6, vec![26, 30, 34, 74, 78, 82]),
    ];
    for (k, expected) in cases {
        let actual = Initializer::Grid.initialize(&matrix, k);
        assert_eq!(actual.len(), expected.len());
        assert_eq!(actual, expected.into_iter().collect::<HashSet<usize>>());
    }
}

#[test]
fn test_initialize_zero_seeds() {
    let cols = 4;
    let rows = 9;
    let points = sample_points(cols, rows);
    let matrix = MatrixView::new(cols, rows, &points).unwrap();

    let actual = Initializer::Grid.initialize(&matrix, 0);

    assert_eq!(actual.len(), 0);
}

#[test]
fn test_initialize_too_many_seeds() {
    let cols = 4;
    let rows = 9;
    let points = sample_points(cols, rows);
    let matrix = MatrixView::new(cols, rows, &points).unwrap();

    let actual = Initializer::Grid.initialize(&matrix, cols * rows + 1);

    assert_eq!(actual.len(), 36);
}

#[test]
fn test_initialize_all_cells() {
    let points = sample_points(3, 2);
    let matrix = MatrixView::new(3, 2, &points).unwrap();
    let actual = Initializer::Grid.initialize(&matrix, 6);
    assert_eq!(actual, (0..6).collect::<HashSet<usize>>());
}

#[test]
fn test_regular_interval_cases() {
    let points = vec![[0.0, 0.0], [1.0, 1.0], [2.0, 2.0], [3.0, 3.0], [4.0, 4.0]];
    let cases: Vec<(usize, Vec<[f64; 2]>)> = vec![
        (0, vec![]),
        (1, vec![[2.0, 2.0]]),
        (2, vec![[1.0, 1.0], [3.0, 3.0]]),
        (3, vec![[0.0, 0.0], [1.0, 1.0], [2.0, 2.0]]),
        (4, vec![[0.0, 0.0], [1.0, 1.0], [2.0, 2.0], [3.0, 3.0]]),
        (5, vec![[0.0, 0.0], [1.0, 1.0], [2.0, 2.0], [3.0, 3.0], [4.0, 4.0]]),
        (6, vec![[0.0, 0.0], [1.0, 1.0], [2.0, 2.0], [3.0, 3.0], [4.0, 4.0]]),
    ];
    for (k, expected) in cases {
        let actual = CentroidInit::RegularInterval.initialize(&points, k);
        assert_eq!(actual.len(), expected.len());
        assert_eq!(actual, expected);
    }
}

#[test]
fn snic_test_new() {
    let shape = (32, 18);
    let segments = 12;
    let metric = DistanceMetric::Euclidean;

    let actual = SNIC::<f64>::new(shape, segments, metric);

    assert!(actual.is_ok());
    let snic = actual.unwrap();
    assert_eq!(snic.shape(), shape);
    assert_eq!(snic.segments(), segments);
    assert_eq!(snic.metric(), metric);
}

#[test]
fn test_snic_new_error_cases() {
    let cases = [
        ((0, 18), 12, SNICError::InvalidShape(0, 18)),
        ((32, 0), 12, SNICError::InvalidShape(32, 0)),
        ((32, 18), 0, SNICError::InvalidSegments(0)),
    ];
    for (shape, segments, expected) in cases {
        let actual = SNIC::<f64>::new(shape, segments, DistanceMetric::Euclidean);
        assert!(actual.is_err());
        assert_eq!(actual.unwrap_err(), expected);
    }
}

#[test]
fn test_snic_error_from_matrix_error() {
    let matrix_error = MatrixError::DimensionMismatch { cols: 2, rows: 2, expected: 4, actual: 3 };
    assert_eq!(SNICError::from(matrix_error), SNICError::InvalidPoints(matrix_error));
}

#[test]
fn test_label_points_clusters_and_noise() {
    let points = vec![
        [0, 0],
        [0, 1],
        [0, 7],
        [0, 8],
        [1, 0],
        [1, 1],
        [1, 2],
        [1, 7],
        [1, 8],
        [2, 1],
        [2, 2],
        [4, 3],
        [4, 4],
        [4, 5],
        [5, 3],
        [5, 4],
        [9, 8],
    ];
    let labels = label_points(&neighborhoods(&points, 4), 4);
    assert_eq!(
        labels,
        vec![0, 0, 1, 1, 0, 0, 0, 1, 1, 0, 0, 2, 2, 2, 2, 2, LABEL_NOISE]
    );
}

#[test]
fn test_label_points_boundary_points() {
    let points = vec![
        [11, 0],
        [0, 11],
        [-11, 0],
        [0, -11],
        [0, 0],
        [0, 10],
        [10, 0],
        [0, -10],
        [-10, 0],
    ];
    let labels = label_points(&neighborhoods(&points, 100), 5);
    assert_eq!(
        labels,
        vec![LABEL_NOISE, LABEL_NOISE, LABEL_NOISE, LABEL_NOISE, 0, 0, 0, 0, 0]
    );
}

#[test]
fn test_label_points_same_points() {
    let points = vec![[0, 0], [0, 0], [0, 0], [0, 0]];
    let labels = label_points(&neighborhoods(&points, 0), 4);
    assert_eq!(labels, vec![0, 0, 0, 0]);
}

#[test]
fn test_label_points_all_noise() {
    let points = vec![[1, 1], [2, 2], [3, 3], [4, 4]];
    let labels = label_points(&neighborhoods(&points, 1), 2);
    assert_eq!(labels, vec![LABEL_NOISE; 4]);
}

#[test]
fn test_label_points_empty() {
    let labels = label_points(&Vec::new(), 4);
    assert!(labels.is_empty());
}

#[test]
fn test_label_points_core_without_itself() {
    // The point 0 reaches 1 and 2 but is not listed among its own neighbours.
    let nbrs = vec![vec![1, 2], vec![1], vec![2]];
    let labels = label_points(&nbrs, 2);
    assert_eq!(labels, vec![LABEL_UNCLASSIFIED, 0, 0]);
}

#[test]
fn test_label_points_noise_becomes_border() {
    // The point 0 has too few neighbours, but the core point 1 reaches it.
    let nbrs = vec![vec![0, 1], vec![0, 1, 2], vec![1, 2]];
    let labels = label_points(&nbrs, 3);
    assert_eq!(labels, vec![0, 0, 0]);
}

#[test]
fn test_label_core_points_clusters_and_outliers() {
    let points = vec![[0, 0], [0, 1], [1, 0], [1, 1], [6, 6], [6, 7], [7, 6], [20, 20]];
    let labels = label_core_points(&neighborhoods(&points, 2), 3);
    assert_eq!(labels, vec![0, 0, 0, 0, 1, 1, 1, OUTLIER]);
}

#[test]
fn test_label_core_points_outlier_joins_cluster() {
    // The point 0 is not dense, but the dense point 1 reaches it.
    let nbrs = vec![vec![0, 1], vec![0, 1, 2], vec![1, 2]];
    let labels = label_core_points(&nbrs, 3);
    assert_eq!(labels, vec![0, 0, 0]);
}

#[test]
fn test_label_core_points_empty() {
    assert!(label_core_points(&Vec::new(), 2).is_empty());
}

#[test]
fn test_label_points_dense_neighbors_share_cluster() {
    // A chain of points one apart: every point is dense and reaches the next.
    let points: Vec<[i64; 2]> = (0..6).map(|i| [i, 0]).collect();
    let nbrs = neighborhoods(&points, 1);
    let labels = label_points(&nbrs, 2);
    assert!(labels.iter().all(|&label| label == labels[0]));
    assert_eq!(labels[0], 0);
}

#[test]
fn test_build_clusters_groups_by_core_label() {
    // Core labels: 0 -> cluster 1, 1 -> cluster 0, 2 -> outlier, 3 -> cluster 1.
    let core_labels = vec![1, 0, OUTLIER, 1];
    let assigned = vec![Some(0), None, Some(1), Some(2), Some(3), Some(1), Some(0)];
    let clusters = build_clusters(&assigned, &core_labels);
    assert_eq!(clusters, vec![vec![2, 5], vec![0, 4, 6]]);
}

#[test]
fn test_build_clusters_without_clusters() {
    let core_labels = vec![OUTLIER];
    assert!(build_clusters(&vec![None, Some(0)], &core_labels).is_empty());
    assert!(build_clusters(&Vec::new(), &Vec::new()).is_empty());
}

#[test]
fn test_build_clusters_skips_unused_labels() {
    let core_labels = vec![0, 1, 2];
    let assigned = vec![Some(2), Some(0), Some(2)];
    assert_eq!(build_clusters(&assigned, &core_labels), vec![vec![1], vec![0, 2]]);
}
