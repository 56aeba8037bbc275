use auto_palette::hierarchical::{
    CompleteLinkage, Dendrogram, DistanceMatrix, HierarchicalClustering, Linkage, Node, Priority,
    SingleLinkage,
};
use std::cmp::Ordering;

fn abs_diff(a: &u64, b: &u64) -> u64 {
    a.abs_diff(*b)
}

fn squared_euclidean(a: &[i64; 2], b: &[i64; 2]) -> u64 {
    let dx = a[0] - b[0];
    let dy = a[1] - b[1];
    (dx * dx + dy * dy) as u64
}

fn square_points() -> Vec<[i64; 2]> {
    vec![[0, 0], [1, 0], [0, 1], [1, 1]]
}

#[test]
fn algorithm_test_new() {
    let actual = HierarchicalClustering::new();
    assert_eq!(actual, HierarchicalClustering {});
}

#[test]
fn algorithm_test_fit() {
    let dataset: Vec<u64> = vec![1, 10, 3, 2, 11];
    let clustering = HierarchicalClustering::new();
    let dendrogram = clustering.fit(&dataset, &abs_diff);

    assert_eq!(dendrogram.len(), 9);

    let nodes = dendrogram.nodes();
    assert_eq!(nodes[0], Node::new(0, None, None, 0));
    assert_eq!(nodes[1], Node::new(1, None, None, 0));
    assert_eq!(nodes[2], Node::new(2, None, None, 0));
    assert_eq!(nodes[3], Node::new(3, None, None, 0));
    assert_eq!(nodes[4], Node::new(4, None, None, 0));
    assert_eq!(nodes[5], Node::new(5, Some(0), Some(3), 1));
    assert_eq!(nodes[6], Node::new(6, Some(1), Some(4), 1));
    assert_eq!(nodes[7], Node::new(7, Some(2), Some(5), 1));
    assert_eq!(nodes[8], Node::new(8, Some(6), Some(7), 7));
}

#[test]
fn test_fit_with_linkage() {
    let dataset: Vec<u64> = vec![1, 10, 3, 2];
    let mut linkage = CompleteLinkage::new(&dataset, &abs_diff);
    let clustering = HierarchicalClustering::new();
    let dendrogram = clustering.fit_with_linkage(&dataset, &mut linkage);

    assert_eq!(dendrogram.len(), 7);

    let nodes = dendrogram.nodes();
    assert_eq!(nodes[0], Node::new(0, None, None, 0));
    assert_eq!(nodes[1], Node::new(1, None, None, 0));
    assert_eq!(nodes[2], Node::new(2, None, None, 0));
    assert_eq!(nodes[3], Node::new(3, None, None, 0));
    assert_eq!(nodes[4], Node::new(4, Some(0), Some(3), 1));
    assert_eq!(nodes[5], Node::new(5, Some(2), Some(4), 2));
    assert_eq!(nodes[6], Node::new(6, Some(1), Some(5), 9));
}

#[test]
fn dendrogram_test_new() {
    let dendrogram = Dendrogram::new(5);
    assert_eq!(dendrogram.len(), 0);
}

#[test]
fn test_partition() {
    let mut dendrogram = Dendrogram::new(5);
    dendrogram.push(Node::new(0, None, None, 0));
    dendrogram.push(Node::new(1, None, None, 0));
    dendrogram.push(Node::new(2, None, None, 0));
    dendrogram.push(Node::new(3, Some(0), Some(2), 2));
    dendrogram.push(Node::new(4, Some(1), Some(3), 5));

    let actual = dendrogram.partition(0);
    assert_eq!(actual.len(), 0);

    let actual = dendrogram.partition(1);
    assert_eq!(actual.len(), 1);
    assert_eq!(actual[0].label, 4);

    let actual = dendrogram.partition(2);
    assert_eq!(actual.len(), 2);
    assert_eq!(actual[0].label, 3);
    assert_eq!(actual[1].label, 1);

    let actual = dendrogram.partition(3);
    assert_eq!(actual.len(), 3);
    assert_eq!(actual[0].label, 1);
    assert_eq!(actual[1].label, 0);
    assert_eq!(actual[2].label, 2);

    let actual = dendrogram.partition(4);
    assert_eq!(actual.len(), 4);
    assert_eq!(actual[0].label, 1);
    assert_eq!(actual[1].label, 1);
    assert_eq!(actual[2].label, 0);
    assert_eq!(actual[3].label, 2);
}

#[test]
fn test_partition_beyond_the_leaves() {
    let mut dendrogram = Dendrogram::new(5);
    dendrogram.push(Node::new(0, None, None, 0));
    dendrogram.push(Node::new(1, None, None, 0));
    dendrogram.push(Node::new(2, None, None, 0));
    dendrogram.push(Node::new(3, Some(0), Some(2), 2));
    dendrogram.push(Node::new(4, Some(1), Some(3), 5));

    // Every leaf is split twice, so at most six clusters come out.
    let actual = dendrogram.partition(10);
    assert_eq!(actual.len(), 6);
    assert!(actual.iter().all(|node| node.node1.is_none() || node.node2.is_none()));
    for label in 0..3 {
        assert_eq!(actual.iter().filter(|node| node.label == label).count(), 2);
    }
}

#[test]
fn test_partition_empty_dendrogram() {
    let dendrogram = Dendrogram::new(0);
    assert!(dendrogram.partition(3).is_empty());
}

#[test]
fn test_single_linkage() {
    let points = square_points();
    let mut linkage = SingleLinkage::new(&points, &squared_euclidean);
    assert_eq!(linkage.distance(0, 1), 1);
    assert_eq!(linkage.distance(0, 2), 1);
    assert_eq!(linkage.distance(0, 3), 2);
    assert_eq!(linkage.distance(1, 2), 2);
    assert_eq!(linkage.distance(1, 3), 1);
    assert_eq!(linkage.distance(2, 3), 1);
    assert_eq!(linkage.distance(0, 4), u64::MAX);
    assert_eq!(linkage.distance(0, 5), u64::MAX);

    assert_eq!(linkage.merge(0, 1), 4);
    assert_eq!(linkage.distance(0, 4), 1);
    assert_eq!(linkage.distance(1, 4), 1);
    assert_eq!(linkage.distance(2, 4), 1);
    assert_eq!(linkage.distance(3, 4), 1);
    assert_eq!(linkage.distance(4, 5), u64::MAX);
}

#[test]
fn test_complete_linkage() {
    let points = square_points();
    let mut linkage = CompleteLinkage::new(&points, &squared_euclidean);
    assert_eq!(linkage.distance(0, 1), 1);
    assert_eq!(linkage.distance(0, 2), 1);
    assert_eq!(linkage.distance(0, 3), 2);
    assert_eq!(linkage.distance(1, 2), 2);
    assert_eq!(linkage.distance(1, 3), 1);
    assert_eq!(linkage.distance(2, 3), 1);
    assert_eq!(linkage.distance(0, 4), u64::MAX);
    assert_eq!(linkage.distance(0, 5), u64::MAX);

    assert_eq!(linkage.merge(0, 1), 4);
    assert_eq!(linkage.distance(0, 4), 1);
    assert_eq!(linkage.distance(1, 4), 1);
    assert_eq!(linkage.distance(2, 4), 2);
    assert_eq!(linkage.distance(3, 4), 2);
    assert_eq!(linkage.distance(4, 5), u64::MAX);
}

#[test]
fn test_merge_keeps_existing_distances() {
    let points = square_points();
    let mut linkage = SingleLinkage::new(&points, &squared_euclidean);
    let before: Vec<u64> = (0..4)
        .flat_map(|i| (0..4).map(move |j| (i, j)))
        .map(|(i, j)| linkage.distance(i, j))
        .collect();
    linkage.merge(1, 2);
    let after: Vec<u64> = (0..4)
        .flat_map(|i| (0..4).map(move |j| (i, j)))
        .map(|(i, j)| linkage.distance(i, j))
        .collect();
    assert_eq!(before, after);
}

#[test]
fn test_merged_distance_not_below_closer_part() {
    let points = square_points();
    let mut single = SingleLinkage::new(&points, &squared_euclidean);
    let mut complete = CompleteLinkage::new(&points, &squared_euclidean);
    single.merge(0, 3);
    complete.merge(0, 3);
    for k in [1usize, 2] {
        let closer = squared_euclidean(&points[0], &points[k]).min(squared_euclidean(&points[3], &points[k]));
        assert!(single.distance(k, 4) >= closer);
        assert!(complete.distance(k, 4) >= closer);
        assert_eq!(single.distance(k, 4), 1);
        assert_eq!(complete.distance(k, 4), 1);
    }
}

#[test]
fn test_distance_matrix() {
    let points: Vec<u64> = vec![4, 9, 1];
    let mut matrix = DistanceMatrix::new(&points, &abs_diff);
    assert_eq!(matrix.size(), 5);
    assert_eq!(matrix.get(0, 1), 5);
    assert_eq!(matrix.get(1, 0), 5);
    assert_eq!(matrix.get(2, 0), 3);
    assert_eq!(matrix.get(1, 1), u64::MAX);
    assert_eq!(matrix.get(0, 3), u64::MAX);
    matrix.set(3, 0, 42);
    assert_eq!(matrix.get(0, 3), 42);
    assert_eq!(matrix.get(3, 0), 42);
}

#[test]
fn test_fit_single_point() {
    let dataset: Vec<u64> = vec![7];
    let dendrogram = HierarchicalClustering::new().fit(&dataset, &abs_diff);
    assert_eq!(dendrogram.len(), 1);
    assert_eq!(dendrogram.nodes()[0], Node::new(0, None, None, 0));
}

#[test]
fn test_fit_merge_distances_never_decrease() {
    let dataset: Vec<u64> = vec![40, 3, 18, 7, 31, 12, 25];
    let dendrogram = HierarchicalClustering::new().fit(&dataset, &abs_diff);
    let nodes = dendrogram.nodes();
    assert_eq!(nodes.len(), 2 * dataset.len() - 1);
    for t in dataset.len() + 1..nodes.len() {
        assert!(nodes[t - 1].distance <= nodes[t].distance);
    }
    let mut merged = vec![0usize; nodes.len()];
    for node in &nodes[dataset.len()..] {
        merged[node.node1.unwrap()] += 1;
        merged[node.node2.unwrap()] += 1;
        assert!(node.node1.unwrap() < node.node2.unwrap());
        assert!(node.node2.unwrap() < node.label);
    }
    assert!(merged[..nodes.len() - 1].iter().all(|&m| m == 1));
    assert_eq!(merged[nodes.len() - 1], 0);
}

#[test]
fn test_node_new() {
    let node = Node::new(0, None, None, 0);
    assert_eq!(
        node,
        Node {
            label: 0,
            node1: None,
            node2: None,
            distance: 0,
        }
    );

    let node = Node::new(2, Some(0), Some(1), 35);
    assert_eq!(
        node,
        Node {
            label: 2,
            node1: Some(0),
            node2: Some(1),
            distance: 35,
        }
    );
}

#[test]
fn test_priority_new() {
    let priority = Priority::new((0, 1), 5);

    assert_eq!(priority.0, (0, 1));
    assert_eq!(priority.1, 5);
}

#[test]
fn test_priority_eq() {
    let priority1 = Priority::new((0, 1), 5);
    let priority2 = Priority::new((0, 2), 5);

    assert!(priority1 == priority2);
}

#[test]
fn test_priority_ord() {
    let priority1 = Priority::new((0, 1), 5);
    let priority2 = Priority::new((0, 2), 3);

    assert_eq!(priority1.cmp(&priority2), Ordering::Greater);
    assert_eq!(priority2.cmp(&priority1), Ordering::Less);
}

fn leaves_under(nodes: &[Node], v: usize, out: &mut Vec<usize>) {
    match (nodes[v].node1, nodes[v].node2) {
        (Some(a), Some(b)) => {
            leaves_under(nodes, a, out);
            leaves_under(nodes, b, out);
        }
        _ => out.push(v),
    }
}

#[test]
fn test_partition_is_a_cut_of_fit() {
    let dataset: Vec<u64> = vec![1, 10, 3, 2, 11, 30, 31];
    let dendrogram = HierarchicalClustering::new().fit(&dataset, &abs_diff);
    let nodes = dendrogram.nodes();
    for n in 1..=dataset.len() {
        let clusters = dendrogram.partition(n);
        assert_eq!(clusters.len(), n);
        let mut leaves = Vec::new();
        for cluster in &clusters {
            leaves_under(nodes, cluster.label, &mut leaves);
        }
        leaves.sort();
        assert_eq!(leaves, (0..dataset.len()).collect::<Vec<_>>());
        let lowest_kept = clusters.iter().map(|c| c.distance).max().unwrap();
        for node in &nodes[dataset.len()..] {
            let cut = clusters.iter().any(|c| c.label == node.label);
            let above = clusters.iter().all(|c| c.label != node.label)
                && clusters.iter().any(|c| {
                    let mut below = Vec::new();
                    leaves_under(nodes, node.label, &mut below);
                    let mut mine = Vec::new();
                    leaves_under(nodes, c.label, &mut mine);
                    mine.iter().all(|x| below.contains(x))
                });
            if above && !cut {
                assert!(node.distance >= lowest_kept);
            }
        }
    }
}

#[test]
fn test_merged_parts_sit_at_their_own_distance() {
    let points = square_points();
    let mut single = SingleLinkage::new(&points, &squared_euclidean);
    let mut complete = CompleteLinkage::new(&points, &squared_euclidean);
    let between = single.distance(0, 3);
    assert_eq!(between, 2);
    assert_eq!(single.merge(0, 3), 4);
    assert_eq!(complete.merge(0, 3), 4);
    assert_eq!(single.distance(0, 4), between);
    assert_eq!(single.distance(3, 4), between);
    assert_eq!(complete.distance(0, 4), between);
    assert_eq!(complete.distance(3, 4), between);
}

#[test]
fn test_distance_matrix_index_is_a_packed_triangle() {
    let points: Vec<u64> = vec![4, 9, 1];
    let matrix = DistanceMatrix::new(&points, &abs_diff);
    let size = matrix.size();
    assert_eq!(size, 5);
    let slots = size * (size + 1) / 2;
    let mut seen = vec![false; slots];
    for i in 0..size {
        for j in i..size {
            let index = matrix.index(i, j);
            assert_eq!(index, matrix.index(j, i));
            assert!(index < slots);
            assert!(!seen[index]);
            seen[index] = true;
        }
    }
    assert!(seen.iter().all(|&s| s));
    for j in 0..size {
        assert_eq!(matrix.index(0, j), j);
    }
    assert_eq!(matrix.index(1, 1), 5);
    assert_eq!(matrix.index(4, 4), 14);
}
