use zipclust::pipeline::tree_groups;
use zipclust::search::{clusters_by_search, clusters_shuffled};

fn path_graph() -> Vec<Vec<(usize, u64)>> {
    vec![
        vec![(1, 100_000)],
        vec![(0, 100_000), (2, 200_000)],
        vec![(1, 200_000), (3, 900_000)],
        vec![(2, 900_000)],
    ]
}

fn sorted_groups(mut g: Vec<Vec<usize>>) -> Vec<Vec<usize>> {
    for c in g.iter_mut() {
        c.sort();
    }
    g.sort();
    g
}

#[test]
fn search_splits_at_heavy_edge() {
    let r = clusters_by_search(&path_graph(), 300_000, &[3, 2, 1, 0]);
    assert_eq!(r, vec![vec![3], vec![0, 1, 2]]);
}

#[test]
fn search_threshold_is_strict() {
    let r = clusters_by_search(&path_graph(), 200_000, &[0, 1, 2, 3]);
    assert_eq!(r, vec![vec![2], vec![3], vec![0, 1]]);
}

#[test]
fn search_below_all_weights_gives_singletons() {
    let r = clusters_by_search(&path_graph(), 50_000, &[2, 0, 3, 1]);
    assert_eq!(r.len(), 4);
    assert_eq!(sorted_groups(r), vec![vec![0], vec![1], vec![2], vec![3]]);
}

#[test]
fn search_above_all_weights_gives_one_group() {
    let r = clusters_by_search(&path_graph(), 1_000_000, &[1, 3, 0, 2]);
    assert_eq!(r, vec![vec![0, 1, 2, 3]]);
}

#[test]
fn shuffled_search_gives_the_same_groups() {
    for seed in 0..20u64 {
        let r = clusters_shuffled(&path_graph(), 300_000, seed);
        assert_eq!(r.len(), 2);
        assert_eq!(r[0], vec![3]);
        assert_eq!(r[1], vec![0, 1, 2]);
    }
}

#[test]
fn search_of_empty_graph() {
    let g: Vec<Vec<(usize, u64)>> = Vec::new();
    assert!(clusters_by_search(&g, 10, &[]).is_empty());
}

#[test]
fn tree_groups_of_a_matrix() {
    let t = vec![
        vec![0, 10, 90, 95],
        vec![10, 0, 20, 99],
        vec![90, 20, 0, 97],
        vec![95, 99, 97, 0],
    ];
    let (edges, groups) = tree_groups(&t, 30, 1);
    assert_eq!(edges, vec![(0, 1, 10), (1, 2, 20), (0, 3, 95)]);
    assert_eq!(groups, vec![vec![3], vec![0, 1, 2]]);
    let (_, groups) = tree_groups(&t, 20, 2);
    assert_eq!(sorted_groups(groups), vec![vec![0, 1], vec![2], vec![3]]);
}
