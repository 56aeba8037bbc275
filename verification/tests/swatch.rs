use auto_palette::swatch::group_swatches;

#[test]
fn test_group_swatches_population_and_position() {
    // Segment lengths by colour label: label 3 -> [5, 9, 9], label 1 -> [4, 2].
    let labels = vec![3, 1, 3, 3, 1];
    let lens = vec![5, 4, 9, 9, 2];
    let groups = group_swatches(&labels, &lens);
    assert_eq!(groups, vec![(1, 6, 1), (3, 23, 2)]);
}

#[test]
fn test_group_swatches_keeps_noise_label() {
    let noise = usize::MAX - 1;
    let labels = vec![noise, 0, noise];
    let lens = vec![1, 7, 3];
    assert_eq!(group_swatches(&labels, &lens), vec![(0, 7, 1), (noise, 4, 2)]);
}

#[test]
fn test_group_swatches_empty() {
    assert!(group_swatches(&[], &[]).is_empty());
}
