use auto_palette::metrics::DistanceMetric;
use auto_palette::sampling::ranked::RankedScores;
use auto_palette::sampling::{
    first_index, last_max_index, sample_farthest, sample_weighted_farthest,
    sample_with_distance_fn, weighted_initial_index, FarthestSampling, SamplingAlgorithm,
    SamplingError,
};
use std::collections::HashSet;

/// Nine points in the plane, on a grid of tenths scaled to integers.
fn sample_points() -> Vec<[i64; 2]> {
    vec![
        [0, 0],
        [1, 1],
        [1, 2],
        [2, 2],
        [2, 4],
        [3, 5],
        [1, 0],
        [0, 1],
        [0, 2],
    ]
}

fn squared(points: &[[i64; 2]], a: usize, b: usize) -> u64 {
    let dx = points[a][0] - points[b][0];
    let dy = points[a][1] - points[b][1];
    (dx * dx + dy * dy) as u64
}

fn set(indices: &[usize]) -> HashSet<usize> {
    indices.iter().copied().collect()
}

#[test]
fn farthest_test_new() {
    let actual = FarthestSampling::<f32>::new(DistanceMetric::SquaredEuclidean);
    assert_eq!(actual.metric(), DistanceMetric::SquaredEuclidean);
    assert_eq!(actual, FarthestSampling::new(DistanceMetric::SquaredEuclidean));
}

#[test]
fn farthest_test_default() {
    let actual = FarthestSampling::<f32>::default();
    assert_eq!(actual.metric(), DistanceMetric::Euclidean);
}

#[test]
fn test_select_initial_index() {
    let algorithm = FarthestSampling::<f32>::default();
    let points: Vec<[f32; 2]> = vec![[0.0, 0.0], [0.1, 0.1], [0.1, 0.2]];

    let actual = algorithm.select_initial_index(&points);

    assert!(actual.is_ok());
    assert_eq!(actual.unwrap(), 0);
}

#[test]
fn farthest_test_select_initial_index_single_point() {
    let algorithm = FarthestSampling::<f32>::default();
    let points = vec![[1.0, 2.0]];

    let actual = algorithm.select_initial_index(&points);

    assert!(actual.is_ok());
    assert_eq!(actual.unwrap(), 0);
}

#[test]
fn farthest_test_select_initial_index_empty_points() {
    let algorithm = FarthestSampling::<f32>::default();
    let points: Vec<[f32; 2]> = vec![];

    let actual = algorithm.select_initial_index(&points);

    assert!(actual.is_err());
    assert_eq!(actual.unwrap_err(), SamplingError::EmptyPoints);
}

#[test]
fn test_first_index() {
    assert_eq!(first_index(0), Err(SamplingError::EmptyPoints));
    assert_eq!(first_index(3), Ok(0));
}

#[test]
fn test_sample_farthest_cases() {
    let points = sample_points();
    let cases: Vec<(usize, Vec<usize>)> = vec![
        (0, vec![]),
        (1, vec![0]),
        (3, vec![0, 3, 5]),
        (4, vec![0, 3, 5, 8]),
        (9, vec![0, 1, 2, 3, 4, 5, 6, 7, 8]),
        (10, vec![0, 1, 2, 3, 4, 5, 6, 7, 8]),
    ];
    for (num_samples, expected) in cases {
        let actual = sample_farthest(points.len(), num_samples, |a, b| squared(&points, a, b));
        assert_eq!(actual, Ok(set(&expected)), "num_samples = {}", num_samples);
    }
}

#[test]
fn test_sample_farthest_ties_take_last() {
    // After 0, 5, 3 and 8, the points 1 and 4 tie at 2; the later one is taken.
    let points = sample_points();
    let actual = sample_farthest(points.len(), 5, |a, b| squared(&points, a, b));
    assert_eq!(actual, Ok(set(&[0, 3, 4, 5, 8])));
}

#[test]
fn test_sample_farthest_empty_points() {
    let actual = sample_farthest(0, 3, |_a, _b| 0);
    assert_eq!(actual, Err(SamplingError::EmptyPoints));
}

#[test]
fn test_sample_with_distance_fn_from_other_start() {
    let points = sample_points();
    let actual = sample_with_distance_fn(points.len(), 2, 5, |a, b| squared(&points, a, b));
    assert_eq!(actual, set(&[5, 0]));
    let actual = sample_with_distance_fn(points.len(), 0, 5, |a, b| squared(&points, a, b));
    assert_eq!(actual, set(&[5]));
}

#[test]
fn test_sample_size_is_min_of_request_and_points() {
    let points = sample_points();
    for num_samples in 1..12 {
        let actual = sample_with_distance_fn(points.len(), num_samples, 2, |a, b| {
            squared(&points, a, b)
        });
        assert_eq!(actual.len(), num_samples.min(points.len()));
        assert!(actual.contains(&2));
    }
}

#[test]
fn test_sample_weighted_farthest() {
    let points = sample_points();
    let weights: Vec<u64> = vec![1, 1, 1, 1, 9, 1, 1, 1, 1];
    let actual = sample_weighted_farthest(points.len(), &weights, 2, |a, b| {
        squared(&points, a, b) * weights[b]
    });
    // Starts at the heaviest point 4; then the farthest weighted point from it.
    assert_eq!(actual, Ok(set(&[4, 0])));
}

#[test]
fn test_sample_weighted_farthest_errors() {
    let actual = sample_weighted_farthest(0, &[], 2, |_a, _b| 0);
    assert_eq!(actual, Err(SamplingError::EmptyPoints));
    let actual = sample_weighted_farthest(3, &[1, 2], 2, |_a, _b| 0);
    assert_eq!(
        actual,
        Err(SamplingError::LengthMismatch { points_len: 3, weights_len: 2 })
    );
}

#[test]
fn test_weighted_initial_index() {
    assert_eq!(weighted_initial_index(3, &[2, 7, 7]), Ok(2));
    assert_eq!(weighted_initial_index(3, &[9, 7, 7]), Ok(0));
    assert_eq!(weighted_initial_index(0, &[]), Err(SamplingError::EmptyPoints));
    assert_eq!(
        weighted_initial_index(2, &[1, 2, 3]),
        Err(SamplingError::LengthMismatch { points_len: 2, weights_len: 3 })
    );
}

#[test]
fn test_last_max_index() {
    assert_eq!(last_max_index(&[]), None);
    assert_eq!(last_max_index(&[3, 8, 1, 8, 2]), Some(3));
    assert_eq!(last_max_index(&[5]), Some(0));
}

#[test]
fn test_sort_scores_descending() {
    let ranked = RankedScores::new(vec![3, 1, 2, 4, 5]);

    assert_eq!(ranked.ranks(), &vec![2, 4, 3, 1, 0]);
    assert_eq!(ranked.sorted_indices(), &vec![4, 3, 0, 2, 1]);
    assert_eq!(ranked.len(), 5);
}

#[test]
fn test_ranked_scores_ties_keep_index_order() {
    let ranked = RankedScores::new(vec![2, 7, 2, 7, 0]);
    assert_eq!(ranked.sorted_indices(), &vec![1, 3, 0, 2, 4]);
    assert_eq!(ranked.ranks(), &vec![2, 0, 3, 1, 4]);
    for (i, &rank) in ranked.ranks().iter().enumerate() {
        assert_eq!(ranked.sorted_indices()[rank], i);
    }
}

#[test]
fn test_ranked_scores_empty() {
    let ranked = RankedScores::new(vec![]);
    assert_eq!(ranked.len(), 0);
    assert!(ranked.sorted_indices().is_empty());
}
