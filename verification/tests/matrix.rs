use auto_palette::matrix::{MatrixError, MatrixView, NeighborIterator};

fn collect_indices(mut iterator: NeighborIterator<'_, f64, 3>) -> Vec<usize> {
    let mut indices = Vec::new();
    while let Some((index, _)) = iterator.next() {
        indices.push(index);
    }
    indices
}

fn collect_indices_2d(mut iterator: NeighborIterator<'_, f64, 2>) -> Vec<usize> {
    let mut indices = Vec::new();
    while let Some((index, _)) = iterator.next() {
        indices.push(index);
    }
    indices
}

#[test]
fn matrix_test_new() {
    let cols = 16;
    let rows = 9;
    let points = vec![[0.0; 3]; cols * rows];

    let actual = MatrixView::new(cols, rows, &points);

    assert!(actual.is_ok());
    let matrix = actual.unwrap();
    assert_eq!(matrix.shape(), (cols, rows));
    assert_eq!(matrix.size(), cols * rows);
}

#[test]
fn matrix_test_new_empty() {
    let points = Vec::<[f64; 3]>::new();
    let matrix = MatrixView::new(0, 0, &points);

    assert!(matrix.is_ok());

    let matrix = matrix.unwrap();
    assert_eq!(matrix.shape(), (0, 0));
    assert_eq!(matrix.size(), 0);
}

#[test]
fn test_new_invalid_points() {
    let cols = 16;
    let rows = 9;
    let points = vec![[0.0; 3]; cols * rows - 1];

    let matrix = MatrixView::new(cols, rows, &points);

    assert!(matrix.is_err());
    assert_eq!(
        matrix.unwrap_err(),
        MatrixError::DimensionMismatch {
            cols,
            rows,
            expected: cols * rows,
            actual: cols * rows - 1,
        }
    );
}

#[test]
fn test_size_and_shape() {
    for (cols, rows) in [(1usize, 1usize), (2, 3), (16, 9), (1, 1024), (1024, 1)] {
        let points = vec![[0.0; 3]; cols * rows];
        let matrix = MatrixView::new(cols, rows, &points).unwrap();
        assert_eq!(matrix.size(), cols * rows);
        assert_eq!(matrix.shape(), (cols, rows));
    }
}

#[test]
fn test_flatten_index_cases() {
    let points = vec![[0.0; 3]; 16 * 9];
    let matrix = MatrixView::new(16, 9, &points).unwrap();
    let cases = [
        (0, 0, Some(0)),
        (1, 0, Some(1)),
        (15, 0, Some(15)),
        (0, 1, Some(16)),
        (1, 1, Some(17)),
        (0, 8, Some(128)),
        (15, 8, Some(143)),
        (16, 0, None),
        (0, 9, None),
        (16, 9, None),
    ];
    for (col, row, expected) in cases {
        assert_eq!(matrix.flatten_index(col, row), expected);
    }
}

#[test]
fn test_get_cases() {
    let mut points = vec![[0.0; 3]; 16 * 9];
    for (i, point) in points.iter_mut().enumerate() {
        *point = [i as f64, i as f64, i as f64];
    }
    let matrix = MatrixView::new(16, 9, &points).unwrap();
    for (col, row, index) in [(8, 4, 72), (0, 0, 0), (0, 8, 128), (15, 0, 15), (15, 8, 143)] {
        assert_eq!(matrix.get(col, row), Some(&points[index]));
    }
    for (col, row) in [(16, 0), (0, 9), (16, 9)] {
        assert!(matrix.get(col, row).is_none());
    }
}

#[test]
fn test_neighbors_cases() {
    let points = vec![[0.0; 3]; 16 * 9];
    let matrix = MatrixView::new(16, 9, &points).unwrap();
    let cases: Vec<((usize, usize), Vec<usize>)> = vec![
        ((0, 0), vec![1, 16, 17]),
        ((0, 1), vec![0, 1, 17, 32, 33]),
        ((1, 0), vec![0, 2, 16, 17, 18]),
        ((1, 1), vec![0, 1, 2, 16, 18, 32, 33, 34]),
        ((0, 8), vec![112, 113, 129]),
        ((1, 8), vec![112, 113, 114, 128, 130]),
        ((15, 0), vec![14, 30, 31]),
        ((15, 7), vec![110, 111, 126, 142, 143]),
        ((15, 8), vec![126, 127, 142]),
    ];
    for ((col, row), expected) in cases {
        assert_eq!(collect_indices(matrix.neighbors(col, row)), expected);
    }
    for (col, row) in [(0, 9), (16, 0), (16, 9)] {
        assert!(collect_indices(matrix.neighbors(col, row)).is_empty());
    }
}

#[test]
fn test_neighbors_within_cases() {
    let points = vec![[0.0; 3]; 16 * 9];
    let matrix = MatrixView::new(16, 9, &points).unwrap();
    let cases: Vec<(usize, (usize, usize), Vec<usize>)> = vec![
        (0, (0, 0), vec![]),
        (1, (0, 0), vec![1, 16, 17]),
        (2, (0, 0), vec![1, 2, 16, 17, 18, 32, 33, 34]),
        (0, (8, 4), vec![]),
        (1, (8, 4), vec![55, 56, 57, 71, 73, 87, 88, 89]),
        (
            2,
            (8, 4),
            vec![
                38, 39, 40, 41, 42, 54, 55, 56, 57, 58, 70, 71, 73, 74, 86, 87, 88, 89, 90, 102,
                103, 104, 105, 106,
            ],
        ),
        (0, (15, 8), vec![]),
        (1, (15, 8), vec![126, 127, 142]),
        (2, (15, 8), vec![109, 110, 111, 125, 126, 127, 141, 142]),
    ];
    for (radius, (col, row), expected) in cases {
        assert_eq!(collect_indices(matrix.neighbors_within(col, row, radius)), expected);
    }
}

#[test]
fn test_neighbor_iterator_new() {
    let cols = 16;
    let rows = 9;
    let points = vec![[0.0; 3]; cols * rows];
    let matrix = MatrixView::new(cols, rows, &points).unwrap();

    let actual = NeighborIterator::new(&matrix, 8, 4, 1);

    assert_eq!(collect_indices(actual), vec![55, 56, 57, 71, 73, 87, 88, 89]);
}

#[test]
fn test_neighbor_iterator_next() {
    let cols = 3;
    let rows = 2;
    let mut points = vec![[0.0; 2]; cols * rows];
    for (i, point) in points.iter_mut().enumerate() {
        *point = [i as f64, i as f64];
    }
    let matrix = MatrixView::new(cols, rows, &points).unwrap();

    let mut iterator = NeighborIterator::new(&matrix, 1, 1, 1);

    assert_eq!(iterator.next(), Some((0, &points[0])));
    assert_eq!(iterator.next(), Some((1, &points[1])));
    assert_eq!(iterator.next(), Some((2, &points[2])));
    assert_eq!(iterator.next(), Some((3, &points[3])));
    assert_eq!(iterator.next(), Some((5, &points[5])));
    assert_eq!(iterator.next(), None);
}

#[test]
fn test_neighbor_iterator_next_out_of_bounds_cases() {
    let points = vec![[0.0; 2]; 6];
    let matrix = MatrixView::new(3, 2, &points).unwrap();
    for (col, row) in [(3, 1), (2, 2), (3, 2)] {
        let mut iterator = NeighborIterator::new(&matrix, col, row, 1);
        assert_eq!(iterator.next(), None);
    }
}

#[test]
fn test_neighbors_single_cell_matrix() {
    let points = vec![[1.0; 3]];
    let matrix = MatrixView::new(1, 1, &points).unwrap();

    let neighbors = collect_indices(matrix.neighbors(0, 0));

    assert!(neighbors.is_empty());
}

#[test]
fn test_neighbors_with_large_radius() {
    let cols = 5;
    let rows = 5;
    let points = vec![[0.0; 3]; cols * rows];
    let matrix = MatrixView::new(cols, rows, &points).unwrap();

    let neighbors = collect_indices(matrix.neighbors_within(2, 2, 10));

    let expected: Vec<_> = (0..25).filter(|&i| i != 12).collect();
    assert_eq!(neighbors, expected);
}

#[test]
fn test_neighbor_iterator_collect() {
    let cols = 3;
    let rows = 3;
    let points = vec![[0.0; 2]; cols * rows];
    let matrix = MatrixView::new(cols, rows, &points).unwrap();

    let neighbors = collect_indices_2d(matrix.neighbors(1, 1));

    assert_eq!(neighbors, vec![0, 1, 2, 3, 5, 6, 7, 8]);
}

#[test]
fn test_neighbor_iterator_with_take() {
    let cols = 4;
    let rows = 4;
    let points = vec![[0.0; 2]; cols * rows];
    let matrix = MatrixView::new(cols, rows, &points).unwrap();

    let mut iterator = matrix.neighbors(2, 2);
    let mut first_three = Vec::new();
    while first_three.len() < 3 {
        match iterator.next() {
            Some((index, _)) => first_three.push(index),
            None => break,
        }
    }

    assert_eq!(first_three.len(), 3);
    assert_eq!(first_three, vec![5, 6, 7]);
}

#[test]
fn test_neighbors_within_are_the_window_in_order() {
    let (cols, rows) = (7usize, 5usize);
    let points = vec![[0.0; 3]; cols * rows];
    let matrix = MatrixView::new(cols, rows, &points).unwrap();
    for radius in 0..4usize {
        for row in 0..rows {
            for col in 0..cols {
                let actual = collect_indices(matrix.neighbors_within(col, row, radius));
                assert!(actual.windows(2).all(|w| w[0] < w[1]));
                let mut expected = Vec::new();
                for r in 0..rows {
                    for c in 0..cols {
                        if (c, r) != (col, row) && c.abs_diff(col) <= radius && r.abs_diff(row) <= radius {
                            expected.push(c + r * cols);
                        }
                    }
                }
                assert_eq!(actual, expected);
            }
        }
    }
}
