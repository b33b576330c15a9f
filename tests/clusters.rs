use zipclust::clusters::clusters;
use zipclust::mst::build_mst;
use zipclust::union_set::UnionSet;

fn path_graph() -> Vec<Vec<(usize, u64)>> {
    // edges 0-1 (0.1), 1-2 (0.2), 2-3 (0.9) in millionths
    vec![
        vec![(1, 100_000)],
        vec![(0, 100_000), (2, 200_000)],
        vec![(1, 200_000), (3, 900_000)],
        vec![(2, 900_000)],
    ]
}

fn same(labels: &[usize], x: usize, y: usize) -> bool {
    labels[x] == labels[y]
}

fn count_clusters(labels: &[usize]) -> usize {
    let mut seen: Vec<usize> = labels.to_vec();
    seen.sort();
    seen.dedup();
    seen.len()
}

#[test]
fn threshold_between_weights_splits_off_heavy_edge() {
    let r = clusters(&path_graph(), 300_000);
    assert!(same(&r, 0, 1) && same(&r, 1, 2));
    assert!(!same(&r, 2, 3));
    assert_eq!(count_clusters(&r), 2);
}

#[test]
fn threshold_below_all_weights_gives_singletons() {
    let r = clusters(&path_graph(), 50_000);
    assert_eq!(count_clusters(&r), 4);
}

#[test]
fn threshold_above_all_weights_gives_one_cluster() {
    let r = clusters(&path_graph(), 1_000_000);
    assert_eq!(count_clusters(&r), 1);
}

#[test]
fn threshold_is_inclusive() {
    let r = clusters(&path_graph(), 200_000);
    assert!(same(&r, 0, 2));
    assert!(!same(&r, 2, 3));
}

#[test]
fn zero_threshold_gives_singletons() {
    let r = clusters(&path_graph(), 0);
    assert_eq!(count_clusters(&r), 4);
}

#[test]
fn unbounded_threshold_gives_one_cluster() {
    let r = clusters(&path_graph(), u64::MAX);
    assert_eq!(count_clusters(&r), 1);
}

#[test]
fn labels_are_members_of_their_cluster() {
    let r = clusters(&path_graph(), 300_000);
    for x in 0..4 {
        assert_eq!(r[r[x]], r[x]);
    }
}

#[test]
fn raising_threshold_only_merges() {
    let g = path_graph();
    let low = clusters(&g, 150_000);
    let high = clusters(&g, 250_000);
    for x in 0..4 {
        for y in 0..4 {
            if low[x] == low[y] {
                assert_eq!(high[x], high[y]);
            }
        }
    }
    assert_ne!(low[1], low[2]);
    assert_eq!(high[1], high[2]);
}

#[test]
fn empty_graph_gives_no_labels() {
    let g: Vec<Vec<(usize, u64)>> = Vec::new();
    assert!(clusters(&g, 10).is_empty());
}

fn sample_matrix() -> Vec<Vec<u64>> {
    vec![
        vec![0, 4, 1, 9],
        vec![4, 0, 2, 7],
        vec![1, 2, 0, 3],
        vec![9, 7, 3, 0],
    ]
}

#[test]
fn mst_has_n_minus_one_edges_of_least_weight() {
    let d = sample_matrix();
    let (edges, graph) = build_mst(&d, 4);
    assert_eq!(edges, vec![(0, 2, 1), (1, 2, 2), (2, 3, 3)]);
    let total: u64 = edges.iter().map(|e| e.2).sum();
    assert_eq!(total, 6);
    assert_eq!(graph[2], vec![(0, 1), (1, 2), (3, 3)]);
    assert_eq!(graph[0], vec![(2, 1)]);
    let entries: usize = graph.iter().map(|r| r.len()).sum();
    assert_eq!(entries, 6);
}

#[test]
fn mst_of_empty_and_single() {
    let (edges, graph) = build_mst(&[], 0);
    assert!(edges.is_empty() && graph.is_empty());
    let (edges, graph) = build_mst(&[vec![5]], 1);
    assert!(edges.is_empty());
    assert_eq!(graph, vec![Vec::<(usize, u64)>::new()]);
}

#[test]
fn mst_ties_follow_enumeration_order() {
    let d = vec![vec![0, 1, 1], vec![1, 0, 1], vec![1, 1, 0]];
    let (edges, _) = build_mst(&d, 3);
    assert_eq!(edges, vec![(0, 1, 1), (0, 2, 1)]);
}

fn brute_force_min_tree(d: &[Vec<u64>]) -> u64 {
    let n = d.len();
    let mut pairs = Vec::new();
    for i in 0..n {
        for j in (i + 1)..n {
            pairs.push((i, j));
        }
    }
    let mut best = u64::MAX;
    for mask in 0u32..(1u32 << pairs.len()) {
        if mask.count_ones() as usize != n - 1 {
            continue;
        }
        let mut ds = UnionSet::new(n);
        let mut total = 0;
        for (k, &(i, j)) in pairs.iter().enumerate() {
            if mask & (1 << k) != 0 {
                ds.join(i, j);
                total += d[i][j];
            }
        }
        let r = ds.find(0);
        if (0..n).all(|x| ds.find(x) == r) && total < best {
            best = total;
        }
    }
    best
}

#[test]
fn mst_weight_matches_brute_force() {
    let matrices = vec![
        sample_matrix(),
        vec![
            vec![0, 5, 3, 8, 2],
            vec![5, 0, 6, 1, 9],
            vec![3, 6, 0, 4, 7],
            vec![8, 1, 4, 0, 6],
            vec![2, 9, 7, 6, 0],
        ],
        vec![
            vec![0, 2, 2, 2, 2],
            vec![2, 0, 2, 2, 2],
            vec![2, 2, 0, 1, 2],
            vec![2, 2, 1, 0, 2],
            vec![2, 2, 2, 2, 0],
        ],
    ];
    for d in matrices {
        let n = d.len();
        let (edges, _) = build_mst(&d, n);
        assert_eq!(edges.len(), n - 1);
        let total: u64 = edges.iter().map(|e| e.2).sum();
        assert_eq!(total, brute_force_min_tree(&d));
    }
}

#[test]
fn removing_a_tree_edge_leaves_two_components() {
    let d = sample_matrix();
    let (edges, _) = build_mst(&d, 4);
    for skip in 0..edges.len() {
        let mut ds = UnionSet::new(4);
        for (k, e) in edges.iter().enumerate() {
            if k != skip {
                ds.join(e.0, e.1);
            }
        }
        let mut roots: Vec<usize> = (0..4).map(|x| ds.find(x)).collect();
        roots.sort();
        roots.dedup();
        assert_eq!(roots.len(), 2);
    }
}

#[test]
fn tree_cut_without_threshold_matches_joining_edges() {
    let d = sample_matrix();
    let (edges, graph) = build_mst(&d, 4);
    let labels = clusters(&graph, u64::MAX);
    let mut ds = UnionSet::new(4);
    for e in &edges {
        ds.join(e.0, e.1);
    }
    for x in 0..4 {
        for y in 0..4 {
            assert_eq!(labels[x] == labels[y], ds.find(x) == ds.find(y));
        }
    }
}
