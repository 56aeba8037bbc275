use auto_palette::matrix::MatrixError;
use auto_palette::segmentation::dbscan::{
    index_to_coords, label_segments, min_segment_size, segment_capacity, spatial_neighbors,
    spatial_radius, LABEL_IGNORED, LABEL_NOISE,
};
use auto_palette::segmentation::{
    DimensionMismatchError, FastDbscanError, SegmentationError, SegmentationInput,
};

#[test]
fn input_test_new() {
    let pixels: Vec<[f64; 5]> = vec![[0.0; 5]; 6];
    let mask = vec![true; 6];
    let input = SegmentationInput::new(3, 2, &pixels, &mask);
    assert!(input.is_ok());

    let input = input.unwrap();
    assert_eq!(input.width(), 3);
    assert_eq!(input.height(), 2);
    assert_eq!(input.pixels().len(), 6);
    assert_eq!(input.mask().len(), 6);
}

#[test]
fn input_test_new_empty() {
    let pixels: Vec<[f64; 5]> = Vec::new();
    let mask: Vec<bool> = Vec::new();
    let input = SegmentationInput::new(0, 0, &pixels, &mask);
    assert!(input.is_ok());

    let input = input.unwrap();
    assert_eq!(input.width(), 0);
    assert_eq!(input.height(), 0);
}

#[test]
fn test_new_pixel_length_mismatch() {
    let pixels: Vec<[f64; 5]> = vec![[0.0; 5]; 4];
    let mask = vec![true; 6];
    let result = SegmentationInput::new(3, 2, &pixels, &mask);
    assert_eq!(
        result.unwrap_err(),
        DimensionMismatchError::LengthMismatch {
            width: 3,
            height: 2,
            expected: 6,
            actual: 4,
        }
    );
}

#[test]
fn test_new_mask_length_mismatch() {
    let pixels: Vec<[f64; 5]> = vec![[0.0; 5]; 6];
    let mask = vec![true; 4];
    let result = SegmentationInput::new(3, 2, &pixels, &mask);
    assert_eq!(
        result.unwrap_err(),
        DimensionMismatchError::LengthMismatch {
            width: 3,
            height: 2,
            expected: 6,
            actual: 4,
        }
    );
}

#[test]
fn test_new_dimension_overflow() {
    let pixels: Vec<[f64; 5]> = Vec::new();
    let mask: Vec<bool> = Vec::new();
    let result = SegmentationInput::new(usize::MAX, 2, &pixels, &mask);
    assert_eq!(
        result.unwrap_err(),
        DimensionMismatchError::Overflow { width: usize::MAX, height: 2 }
    );
}

#[test]
fn test_segmentation_error_from_matrix_error() {
    let matrix_error = MatrixError::DimensionMismatch { cols: 3, rows: 2, expected: 6, actual: 5 };
    assert_eq!(
        SegmentationError::from(matrix_error),
        SegmentationError::UnexpectedLength(matrix_error)
    );
    assert_ne!(
        SegmentationError::InvalidArgument("segments".to_string()),
        SegmentationError::UnexpectedLength(matrix_error)
    );
}

#[test]
fn test_fast_dbscan_error_values() {
    let error: FastDbscanError<f64> = FastDbscanError::InvalidEpsilon(0.0);
    assert_eq!(error, FastDbscanError::InvalidEpsilon(0.0));
    assert_ne!(error, FastDbscanError::OutOfRangeProbability(0.0));
    assert_eq!(
        FastDbscanError::<f32>::UnexpectedLength { actual: 3, expected: 4 },
        FastDbscanError::UnexpectedLength { actual: 3, expected: 4 }
    );
}

#[test]
fn test_index_to_coords() {
    assert_eq!(index_to_coords(0, 4), (1, 1));
    assert_eq!(index_to_coords(5, 4), (2, 2));
    assert_eq!(index_to_coords(11, 4), (4, 3));
    assert_eq!(index_to_coords(usize::MAX, 4), (4, usize::MAX / 4 + 1));
}

#[test]
fn test_spatial_neighbors() {
    // A 4 x 3 image; the seed 5 sits at column 1, row 1.
    let candidates: Vec<usize> = (0..12).collect();
    assert_eq!(spatial_neighbors(5, 4, 1, &candidates), vec![1, 4, 5, 6, 9]);
    assert_eq!(spatial_neighbors(5, 4, 0, &candidates), vec![5]);
    assert_eq!(spatial_neighbors(5, 4, 2, &[11, 3, 7, 0]), vec![7, 0]);
}

#[test]
fn test_segment_parameters() {
    assert_eq!(spatial_radius(108, 1), 10);
    assert_eq!(spatial_radius(108, 4), 5);
    assert_eq!(spatial_radius(5, 20), 1);
    assert_eq!(spatial_radius(0, 3), 1);
    assert_eq!(segment_capacity(100, 8), 12);
    assert_eq!(min_segment_size(100, 8), 6);
    assert_eq!(min_segment_size(10, 8), 1);
}

#[test]
fn test_label_segments_mask_and_noise() {
    // Pixels 0..=3 reach each other, 4 is masked out, 5 is alone.
    let nbrs = vec![
        vec![0, 1, 2, 3],
        vec![0, 1, 2, 3],
        vec![0, 1, 2, 3, 4],
        vec![0, 1, 2, 3],
        vec![2, 4],
        vec![5],
    ];
    let mask = vec![true, true, true, true, false, true];
    let labels = label_segments(&nbrs, &mask, 3, 100);
    assert_eq!(labels, vec![0, 0, 0, 0, LABEL_IGNORED, LABEL_NOISE]);
}

#[test]
fn test_label_segments_capacity() {
    // All six pixels reach each other; segments hold at most two pixels.
    let all: Vec<usize> = (0..6).collect();
    let nbrs = vec![all.clone(); 6];
    let mask = vec![true; 6];
    let labels = label_segments(&nbrs, &mask, 2, 2);
    assert_eq!(labels, vec![0, 0, 1, 1, 2, 2]);
}

#[test]
fn test_label_segments_noise_joins_segment() {
    // Pixel 0 is not dense, but the dense pixel 1 reaches it.
    let nbrs = vec![vec![0], vec![0, 1, 2], vec![1, 2]];
    let mask = vec![true; 3];
    let labels = label_segments(&nbrs, &mask, 3, 10);
    assert_eq!(labels, vec![0, 0, 0]);
}

#[test]
fn test_label_segments_adjacent_dense_pixels_share_segment() {
    // Two dense pixels reach each other and the segment has room: one segment.
    let nbrs = vec![vec![0, 1], vec![0, 1]];
    let mask = vec![true, true];
    let labels = label_segments(&nbrs, &mask, 2, 100);
    assert_eq!(labels, vec![0, 0]);
}
