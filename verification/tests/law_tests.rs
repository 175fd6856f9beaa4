use std::collections::{HashMap, HashSet, VecDeque};

use synunitary::block_zxz::{absorb_trailing_cnots, BlockZXZ};
use synunitary::cluster_finding::all_pairs_distances;
use synunitary::routing::{GateName, RoutedMultiplexer, RoutingGate};
use synunitary::utils::get_subset_of_neighbors;

fn cx(ctrl: usize, targ: usize) -> RoutingGate {
    RoutingGate { name: GateName::CX, ctrl, targ, angle: 0 }
}

#[test]
fn coupling_graph_is_undirected() {
    let m = RoutedMultiplexer::new(vec![[1, 2], [2, 3], [4, 3], [3, 5], [5, 1]], 3);
    for (u, ns) in &m.neighbors {
        for w in ns {
            assert!(m.neighbors[w].contains(u));
        }
    }
}

#[test]
fn distances_are_symmetric_and_obey_the_triangle_inequality() {
    let m = RoutedMultiplexer::new(vec![[1, 2], [2, 3], [1, 3], [3, 4], [4, 5], [5, 6]], 3);
    let d = all_pairs_distances(&m.neighbors);
    for u in 1..=6i64 {
        for v in 1..=6i64 {
            assert_eq!(d[&u][&v], d[&v][&u]);
            for w in 1..=6i64 {
                assert!(d[&u][&w] <= d[&u][&v] + d[&v][&w]);
            }
        }
    }
    assert_eq!(d[&1][&6], 4);
}

#[test]
fn subset_of_neighbors_is_idempotent() {
    let m = RoutedMultiplexer::new(vec![[1, 2], [2, 3], [3, 4], [4, 1], [2, 5]], 3);
    let nodes: HashSet<i64> = [1, 2, 3, 5].into_iter().collect();
    let once = get_subset_of_neighbors(&m.neighbors, &nodes);
    let twice = get_subset_of_neighbors(&once, &nodes);
    assert_eq!(once, twice);
    assert_eq!(once.len(), 4);
}

#[test]
fn placement_maps_are_inverse() {
    let mut m = RoutedMultiplexer::new(vec![[1, 2], [2, 3], [3, 4], [4, 1]], 3);
    m.map_grey_qubits_to_arch_unitary_synth();
    assert_eq!(m.grey_to_arch_map.len(), 3);
    for (q, v) in &m.grey_to_arch_map {
        assert_eq!(m.arch_to_grey_map[v], *q);
    }
    for (v, q) in &m.arch_to_grey_map {
        assert_eq!(m.grey_to_arch_map[q], *v);
    }
}

#[test]
fn swapping_back_mirrors_swapping_forward() {
    let mut forward = BlockZXZ::new(vec![]);
    forward.original_multiplexer.arch_to_grey_map = [(5i64, 0usize), (6, 1), (7, 2), (8, 3)].into_iter().collect();
    let mut backward = BlockZXZ::new(vec![]);
    backward.original_multiplexer.arch_to_grey_map = forward.original_multiplexer.arch_to_grey_map.clone();
    forward.swap_to(vec![5, 6, 7, 8], false);
    backward.swap_to(vec![5, 6, 7, 8], true);
    assert_eq!(forward.gate_queue.len(), 3);
    for (a, b) in forward.gate_queue.iter().zip(backward.gate_queue.iter().rev()) {
        assert_eq!((a.name, a.ctrl, a.targ), (b.name, b.ctrl, b.targ));
    }
}

#[test]
fn every_absorbed_cnot_leaves_the_circuit() {
    let rz = RoutingGate { name: GateName::RZ, ctrl: 0, targ: 2, angle: 1 };
    let mut gc: VecDeque<RoutingGate> = VecDeque::from(vec![cx(2, 0), cx(1, 0), cx(0, 1), rz, cx(0, 1)]);
    let before_c = gc.len();
    let mut ga: VecDeque<RoutingGate> = VecDeque::from(vec![rz, rz, rz, rz]);
    let before_a = ga.len();
    let applied = absorb_trailing_cnots(&mut gc, &mut ga, 1);
    assert_eq!(applied.len(), before_c - gc.len());
    assert!(before_a - ga.len() <= applied.len());
    assert_eq!(applied.len(), 2);
    assert_eq!(gc.len(), 3);
}

#[test]
fn consecutive_gray_states_differ_in_one_bit() {
    let mut m = RoutedMultiplexer::new(vec![], 4);
    m.arch_to_grey_map = [(10i64, 3usize), (11, 0), (12, 1), (13, 2)].into_iter().collect();
    m.root = 10;
    let from_root: HashMap<i64, i64> = [(11i64, 1i64), (12, 2), (13, 3)].into_iter().collect();
    m.pairwise_dists.insert(10, from_root);
    m.get_optimal_gray_code();
    let states: Vec<i64> = m.gray_state_queue.iter().copied().collect();
    assert_eq!(states.len(), 8);
    assert_eq!(states[0], 8);
    for k in 1..states.len() {
        assert_eq!((states[k] ^ states[k - 1]).count_ones(), 1);
    }
    let mut codes = m.gray_code.clone();
    codes.sort();
    assert_eq!(codes, (0..8).collect::<Vec<i64>>());
}

#[test]
fn first_level_gray_code_lists_every_term_once() {
    let mut m = RoutedMultiplexer::new(vec![[1, 2], [2, 3], [3, 4], [4, 5]], 4);
    m.map_grey_qubits_to_arch_unitary_synth();
    m.get_optimal_gray_code();
    assert_eq!(m.gray_code.len(), 8);
    assert_eq!(m.gray_code[0], 0);
    let mut codes = m.gray_code.clone();
    codes.sort();
    assert_eq!(codes, (0..8).collect::<Vec<i64>>());
    for k in 1..m.gray_code.len() {
        assert_eq!((m.gray_code[k] ^ m.gray_code[k - 1]).count_ones(), 1);
    }
}

fn ring(n: i64) -> HashMap<i64, HashSet<i64>> {
    let mut g: HashMap<i64, HashSet<i64>> = HashMap::new();
    for a in 0..n {
        let b = (a + 1) % n;
        g.entry(a).or_default().insert(b);
        g.entry(b).or_default().insert(a);
    }
    g
}

#[test]
fn cluster_cost_ignores_the_order_of_the_nodes() {
    let m = RoutedMultiplexer::new(vec![[1, 2], [2, 3], [1, 3], [3, 4], [4, 5]], 3);
    let d = all_pairs_distances(&m.neighbors);
    let forward = synunitary::cluster_finding::cluster_cost(&vec![1, 3, 5, 2], &d);
    let shuffled = synunitary::cluster_finding::cluster_cost(&vec![5, 2, 1, 3], &d);
    assert_eq!(forward, Some(11));
    assert_eq!(forward, shuffled);
    let missing = synunitary::cluster_finding::cluster_cost(&vec![1, 9, 2], &d);
    let missing_shuffled = synunitary::cluster_finding::cluster_cost(&vec![9, 2, 1], &d);
    assert_eq!(missing, None);
    assert_eq!(missing_shuffled, None);
}

#[test]
fn swaps_there_and_back_leave_every_basis_state() {
    let mut z = BlockZXZ::new(vec![]);
    z.original_multiplexer.arch_to_grey_map = [(5i64, 0usize), (6, 2), (7, 1), (8, 3)].into_iter().collect();
    z.swap_to(vec![5, 6, 7, 8], false);
    assert_eq!(z.gate_queue.len(), 3);
    z.swap_to(vec![5, 6, 7, 8], true);
    assert_eq!(z.gate_queue.len(), 6);
    for j in 0u64..16 {
        let mut s = j;
        for g in &z.gate_queue {
            s = synunitary::basis::swap_image(s, g.ctrl as u64, g.targ as u64);
        }
        assert_eq!(s, j);
    }
    let mut s = 0b0001u64;
    for g in z.gate_queue.iter().take(3) {
        s = synunitary::basis::swap_image(s, g.ctrl as u64, g.targ as u64);
    }
    assert_eq!(s, 0b1000);
}

#[test]
fn exact_method_returns_what_the_exact_search_returns() {
    let g = ring(6);
    let (c1, d1) = synunitary::cluster_finding::find_closest_cluster(3, &g, "exact");
    let (c2, d2) = synunitary::cluster_finding::find_closest_cluster_exact(3, &g);
    assert_eq!(c1, c2);
    assert_eq!(d1, d2);
    let (c3, _) = synunitary::cluster_finding::find_closest_cluster(3, &g, "auto");
    assert_eq!(c3, c2);
}

#[test]
fn auto_method_on_many_combinations_returns_what_the_greedy_search_returns() {
    let g = ring(20);
    let (c1, d1) = synunitary::cluster_finding::find_closest_cluster(10, &g, "auto");
    let (c2, d2) = synunitary::cluster_finding::find_closest_cluster_greedy(10, &g);
    assert_eq!(c1, c2);
    assert_eq!(d1, d2);
    assert_eq!(c1.len(), 10);
}

#[test]
fn exact_search_keeps_the_first_cheapest_combination() {
    let g = ring(5);
    let keys = synunitary::graph::map_keys(&g);
    let d = all_pairs_distances(&g);
    let mut expected: Option<Vec<i64>> = None;
    for i in 0..keys.len() {
        for j in i + 1..keys.len() {
            if expected.is_none() && d[&keys[i]][&keys[j]] == 1 {
                let (a, b) = (keys[i], keys[j]);
                expected = Some(vec![a.min(b), a.max(b)]);
            }
        }
    }
    let (cluster, _) = synunitary::cluster_finding::find_closest_cluster_exact(2, &g);
    assert_eq!(Some(cluster), expected);
}

#[test]
fn distances_are_consistent_along_edges_and_rows_match_single_source_runs() {
    let m = RoutedMultiplexer::new(vec![[1, 2], [2, 3], [1, 3], [3, 4], [4, 5], [5, 6]], 3);
    let all = all_pairs_distances(&m.neighbors);
    for u in 1..=6i64 {
        let d = synunitary::cluster_finding::bfs_distances(u, &m.neighbors);
        assert_eq!(all[&u], d);
        for (x, dx) in &d {
            for w in &m.neighbors[x] {
                assert!(d[w] <= dx + 1);
            }
        }
    }
}
