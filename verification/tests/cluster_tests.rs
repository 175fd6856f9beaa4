use std::collections::{HashMap, HashSet};

use synunitary::cluster_finding::{
    all_pairs_distances, bfs_distances, cluster_cost, find_closest_cluster, find_closest_cluster_exact,
    find_closest_cluster_greedy, order_cluster,
};
use synunitary::graph::{map_keys, set_members};
use synunitary::utils::{get_path, get_subset_of_neighbors};

fn graph(edges: &[(i64, i64)]) -> HashMap<i64, HashSet<i64>> {
    let mut g: HashMap<i64, HashSet<i64>> = HashMap::new();
    for &(a, b) in edges {
        g.entry(a).or_default().insert(b);
        g.entry(b).or_default().insert(a);
    }
    g
}

fn path_graph() -> HashMap<i64, HashSet<i64>> {
    graph(&[(1, 2), (2, 3), (3, 4)])
}

/// A triangle 1-2-3 with a tail 3-4-5.
fn kite() -> HashMap<i64, HashSet<i64>> {
    graph(&[(1, 2), (2, 3), (1, 3), (3, 4), (4, 5)])
}

fn set(xs: &[i64]) -> HashSet<i64> {
    xs.iter().copied().collect()
}

#[test]
fn bfs_distances_on_a_path() {
    let d = bfs_distances(1, &path_graph());
    let expected: HashMap<i64, i64> = [(1, 0), (2, 1), (3, 2), (4, 3)].into_iter().collect();
    assert_eq!(d, expected);
}

#[test]
fn bfs_distances_skips_unreachable_nodes() {
    let g = graph(&[(1, 2), (7, 8)]);
    let d = bfs_distances(1, &g);
    let expected: HashMap<i64, i64> = [(1, 0), (2, 1)].into_iter().collect();
    assert_eq!(d, expected);
}

#[test]
fn bfs_distances_from_a_node_without_neighbours() {
    let d = bfs_distances(42, &path_graph());
    let expected: HashMap<i64, i64> = [(42, 0)].into_iter().collect();
    assert_eq!(d, expected);
}

#[test]
fn all_pairs_distances_on_a_path() {
    let d = all_pairs_distances(&path_graph());
    assert_eq!(d.len(), 4);
    assert_eq!(d[&1][&4], 3);
    assert_eq!(d[&4][&1], 3);
    assert_eq!(d[&2][&3], 1);
    assert_eq!(d[&3][&3], 0);
}

#[test]
fn cluster_cost_sums_pairwise_distances() {
    let d = all_pairs_distances(&path_graph());
    assert_eq!(cluster_cost(&vec![1, 2, 3], &d), Some(4));
    assert_eq!(cluster_cost(&vec![1, 4], &d), Some(3));
    assert_eq!(cluster_cost(&vec![2], &d), Some(0));
}

#[test]
fn cluster_cost_of_a_disconnected_cluster_is_none() {
    let g = graph(&[(1, 2), (7, 8)]);
    let d = all_pairs_distances(&g);
    assert_eq!(cluster_cost(&vec![1, 7], &d), None);
    assert_eq!(cluster_cost(&vec![1, 99], &d), None);
}

#[test]
fn order_cluster_starts_at_the_centre() {
    let d = all_pairs_distances(&path_graph());
    assert_eq!(order_cluster(&vec![3, 1, 2], &d), vec![2, 1, 3]);
    assert_eq!(order_cluster(&vec![4, 3, 2, 1], &d), vec![2, 1, 3, 4]);
}

#[test]
fn exact_search_finds_the_triangle() {
    let (cluster, dists) = find_closest_cluster_exact(3, &kite());
    assert_eq!(cluster, vec![1, 2, 3]);
    assert_eq!(dists[&1][&5], 3);
}

#[test]
fn exact_search_for_a_pair_returns_an_edge() {
    let (cluster, _) = find_closest_cluster_exact(2, &path_graph());
    assert_eq!(cluster.len(), 2);
    assert_eq!(cluster[1], cluster[0] + 1);
}

#[test]
fn greedy_search_grows_from_the_best_edge() {
    let (cluster, _) = find_closest_cluster_greedy(3, &kite());
    assert_eq!(cluster.len(), 3);
    assert!(cluster.contains(&3));
    assert!(cluster.contains(&4));
    let third: Vec<i64> = cluster.iter().copied().filter(|x| *x != 3 && *x != 4).collect();
    assert_eq!(third.len(), 1);
    assert!([1, 2, 5].contains(&third[0]));
}

#[test]
fn greedy_search_for_a_pair_returns_the_best_edge() {
    let (cluster, _) = find_closest_cluster_greedy(2, &kite());
    assert_eq!(cluster, vec![3, 4]);
}

#[test]
fn auto_search_uses_the_exact_search_on_small_graphs() {
    let (cluster, _) = find_closest_cluster(3, &kite(), "auto");
    assert_eq!(cluster, vec![1, 2, 3]);
}

#[test]
fn any_other_method_uses_the_exact_search() {
    let (cluster, _) = find_closest_cluster(3, &kite(), "greedy");
    assert_eq!(cluster, vec![1, 2, 3]);
}

#[test]
fn subset_of_neighbors_keeps_the_induced_edges() {
    let sub = get_subset_of_neighbors(&path_graph(), &set(&[1, 2, 3]));
    let mut expected: HashMap<i64, HashSet<i64>> = HashMap::new();
    expected.insert(1, set(&[2]));
    expected.insert(2, set(&[1, 3]));
    expected.insert(3, set(&[2]));
    assert_eq!(sub, expected);
}

#[test]
fn subset_of_neighbors_of_nothing_is_empty() {
    let sub = get_subset_of_neighbors(&path_graph(), &HashSet::new());
    assert!(sub.is_empty());
}

#[test]
fn get_path_follows_the_only_route() {
    assert_eq!(get_path(&path_graph(), &set(&[1, 2, 3, 4]), 1, 4), vec![1, 2, 3, 4]);
    assert_eq!(get_path(&path_graph(), &set(&[1, 2, 3, 4]), 3, 3), vec![3]);
}

#[test]
fn get_path_stays_inside_the_subset() {
    // The short way from 1 to 3 runs through 2; without 2 it runs round the tail.
    let g = graph(&[(1, 2), (2, 3), (1, 5), (5, 6), (6, 3)]);
    assert_eq!(get_path(&g, &set(&[1, 2, 3, 5, 6]), 1, 3), vec![1, 2, 3]);
    assert_eq!(get_path(&g, &set(&[1, 3, 5, 6]), 1, 3), vec![1, 5, 6, 3]);
}

#[test]
fn set_members_and_map_keys_list_everything_once() {
    let mut members = set_members(&set(&[5, 3, 9]));
    members.sort();
    assert_eq!(members, vec![3, 5, 9]);
    let mut keys = map_keys(&path_graph());
    keys.sort();
    assert_eq!(keys, vec![1, 2, 3, 4]);
}
