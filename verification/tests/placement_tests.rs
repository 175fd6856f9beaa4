use std::collections::{HashMap, HashSet, VecDeque};

use synunitary::block_zxz::{absorb_trailing_cnots, remap_gates, BlockZXZ};
use synunitary::routing::{GateName, RoutedMultiplexer, RoutingGate};

fn gate(name: GateName, ctrl: usize, targ: usize, angle: usize) -> RoutingGate {
    RoutingGate { name, ctrl, targ, angle }
}

fn cx(ctrl: usize, targ: usize) -> RoutingGate {
    gate(GateName::CX, ctrl, targ, 0)
}

fn same(a: &RoutingGate, b: &RoutingGate) -> bool {
    a.name == b.name && a.ctrl == b.ctrl && a.targ == b.targ && a.angle == b.angle
}

fn same_gates<'a, I: IntoIterator<Item = &'a RoutingGate>>(q: I, expected: &[RoutingGate]) -> bool {
    let v: Vec<&RoutingGate> = q.into_iter().collect();
    v.len() == expected.len() && v.iter().zip(expected.iter()).all(|(a, b)| same(a, b))
}

fn set(xs: &[i64]) -> HashSet<i64> {
    xs.iter().copied().collect()
}

/// Qubits 0, 1 and 2 placed on nodes 11, 12 and 10, the root on node 10.
fn placed_three() -> RoutedMultiplexer {
    let mut m = RoutedMultiplexer::new(vec![], 3);
    m.arch_to_grey_map = [(10i64, 2usize), (11, 0), (12, 1)].into_iter().collect();
    m.root = 10;
    let mut from_root: HashMap<i64, i64> = HashMap::new();
    from_root.insert(11, 1);
    from_root.insert(12, 2);
    m.pairwise_dists.insert(10, from_root);
    m
}

#[test]
fn map_grey_qubits_places_the_cluster() {
    let mut m = RoutedMultiplexer::new(vec![[1, 2], [2, 3]], 3);
    m.map_grey_qubits_to_arch_unitary_synth();
    let g2a: HashMap<usize, i64> = [(0usize, 2i64), (1, 1), (2, 3)].into_iter().collect();
    let a2g: HashMap<i64, usize> = [(2i64, 0usize), (1, 1), (3, 2)].into_iter().collect();
    assert_eq!(m.grey_to_arch_map, g2a);
    assert_eq!(m.arch_to_grey_map, a2g);
    assert_eq!(m.arch_qubits, set(&[1, 2, 3]));
    assert_eq!(m.root, 3);
    assert_eq!(m.furthest_node, 2);
    assert_eq!(m.optimal_neighborhood.len(), 3);
    assert_eq!(m.optimal_neighborhood[&2], vec![2]);
    assert_eq!(m.optimal_neighborhood[&1], vec![2, 1]);
    assert_eq!(m.optimal_neighborhood[&3], vec![2, 3]);
    assert_eq!(m.pairwise_dists[&1][&3], 2);
}

#[test]
fn find_optimal_neighborhood_returns_paths_and_placement() {
    let mut m = RoutedMultiplexer::new(vec![[1, 2], [2, 3]], 3);
    let (paths, g2a) = m.find_optimal_neighborhood_closest_cluster();
    assert_eq!(paths[&1], vec![2, 1]);
    assert_eq!(paths[&2], vec![2]);
    assert_eq!(g2a[&0], 2);
    assert_eq!(g2a[&2], 3);
    assert_eq!(m.pairwise_dists.len(), 3);
    assert!(m.grey_to_arch_map.is_empty());
}

#[test]
fn recompute_optimal_neighborhood_routes_from_the_root() {
    let mut m = RoutedMultiplexer::new(vec![[1, 2], [2, 3]], 3);
    m.map_grey_qubits_to_arch_unitary_synth();
    m.recompute_optimal_neighborhood();
    assert_eq!(m.optimal_neighborhood[&3], vec![3]);
    assert_eq!(m.optimal_neighborhood[&2], vec![3, 2]);
    assert_eq!(m.optimal_neighborhood[&1], vec![3, 2, 1]);
}

#[test]
fn optimal_gray_code_for_two_qubits() {
    let mut m = RoutedMultiplexer::new(vec![], 2);
    m.arch_to_grey_map = [(10i64, 1usize), (11, 0)].into_iter().collect();
    m.root = 10;
    m.pairwise_dists.insert(10, [(11i64, 3i64)].into_iter().collect());
    let cost = m.get_optimal_gray_code();
    assert_eq!(cost, 16);
    assert!(same_gates(&m.gray_gate_queue, &[cx(0, 1), cx(0, 1)]));
    assert_eq!(m.gray_state_queue, VecDeque::from(vec![2, 3]));
    assert_eq!(m.gray_code, vec![0, 1]);
}

#[test]
fn optimal_gray_code_for_three_qubits() {
    let mut m = placed_three();
    let cost = m.get_optimal_gray_code();
    assert_eq!(cost, 10);
    assert!(same_gates(&m.gray_gate_queue, &[cx(0, 2), cx(1, 2), cx(0, 2), cx(1, 2)]));
    assert_eq!(m.gray_state_queue, VecDeque::from(vec![4, 5, 7, 6]));
    assert_eq!(m.gray_code, vec![0, 1, 3, 2]);
}

#[test]
fn optimal_gray_code_appends_to_earlier_sweeps() {
    let mut m = placed_three();
    m.get_optimal_gray_code();
    m.get_optimal_gray_code();
    assert_eq!(m.gray_gate_queue.len(), 8);
    assert_eq!(m.gray_code, vec![0, 1, 3, 2, 0, 1, 3, 2]);
}

#[test]
fn block_zxz_new_is_empty() {
    let z = BlockZXZ::new(vec![[1, 2]]);
    assert_eq!(z.coupling_map, vec![[1, 2]]);
    assert!(z.gate_queue.is_empty());
    assert!(z.routed_multiplexers.is_empty());
    assert!(z.swaps_per_level.is_empty());
    assert!(z.swap_maps.is_empty());
    assert_eq!(z.original_multiplexer.num_qubits, 0);
}

#[test]
fn swap_to_walks_the_path_both_ways() {
    let mut z = BlockZXZ::new(vec![]);
    z.original_multiplexer.arch_to_grey_map = [(5i64, 0usize), (6, 1), (7, 2)].into_iter().collect();
    z.swap_to(vec![5, 6, 7], false);
    let swap = |a: usize, b: usize| gate(GateName::SWAP, a, b, 0);
    assert!(same_gates(&z.gate_queue, &[swap(0, 1), swap(1, 2)]));
    z.swap_to(vec![5, 6, 7], true);
    assert!(same_gates(&z.gate_queue, &[swap(0, 1), swap(1, 2), swap(1, 2), swap(0, 1)]));
    z.swap_to(vec![5], true);
    assert_eq!(z.gate_queue.len(), 4);
}

#[test]
fn initialize_multiplexers_plans_one_level() {
    let mut z = BlockZXZ::new(vec![[1, 2], [2, 3]]);
    z.initialize_multiplexers(3);
    let orig = &z.original_multiplexer;
    assert_eq!(orig.root, 3);
    assert_eq!(orig.gray_code, vec![0, 1, 3, 2]);
    assert!(same_gates(&orig.gray_gate_queue, &[cx(0, 2), cx(1, 2), cx(0, 2), cx(1, 2)]));
    assert_eq!(z.routed_multiplexers.len(), 1);
    assert_eq!(z.swaps_per_level[&0], None);
    assert_eq!(z.swap_maps[&0], None);
    let level = &z.routed_multiplexers[&0];
    assert_eq!(level.root, 3);
    assert_eq!(level.furthest_node, 2);
    assert_eq!(level.arch_to_grey_map, orig.arch_to_grey_map);
    assert_eq!(level.optimal_neighborhood[&3], vec![3]);
    assert_eq!(level.optimal_neighborhood[&2], vec![3, 2]);
    assert_eq!(level.optimal_neighborhood[&1], vec![3, 2, 1]);
    assert_eq!(level.gray_code, vec![0, 1, 3, 2]);
}

#[test]
fn initialize_multiplexers_on_two_qubits_plans_no_level() {
    let mut z = BlockZXZ::new(vec![[1, 2]]);
    z.initialize_multiplexers(2);
    assert!(z.routed_multiplexers.is_empty());
    assert_eq!(z.original_multiplexer.num_qubits, 2);
    assert_eq!(z.original_multiplexer.gray_code, vec![0, 1]);
}

#[test]
fn absorb_takes_cnots_and_stops_at_a_wide_gate() {
    let rz = gate(GateName::RZ, 0, 2, 7);
    let mut gc: VecDeque<RoutingGate> = VecDeque::from(vec![cx(0, 2), cx(0, 1), rz]);
    let a = |k: usize| gate(GateName::RZ, 0, 1, k);
    let mut ga: VecDeque<RoutingGate> = VecDeque::from(vec![a(1), a(2), a(3)]);
    let applied = absorb_trailing_cnots(&mut gc, &mut ga, 1);
    assert!(same_gates(&applied, &[cx(0, 1)]));
    assert!(same_gates(&gc, &[cx(0, 2), rz]));
    assert!(same_gates(&ga, &[a(1), a(3)]));
}

#[test]
fn absorb_takes_every_narrow_cnot() {
    let mut gc: VecDeque<RoutingGate> = VecDeque::from(vec![cx(0, 1), cx(1, 0)]);
    let a = |k: usize| gate(GateName::RZ, 0, 1, k);
    let mut ga: VecDeque<RoutingGate> = VecDeque::from(vec![a(1), a(2), a(3)]);
    let applied = absorb_trailing_cnots(&mut gc, &mut ga, 1);
    assert!(same_gates(&applied, &[cx(1, 0), cx(0, 1)]));
    assert!(gc.is_empty());
    assert!(same_gates(&ga, &[a(3)]));
}

#[test]
fn absorb_of_nothing_does_nothing() {
    let mut gc: VecDeque<RoutingGate> = VecDeque::new();
    let mut ga: VecDeque<RoutingGate> = VecDeque::new();
    let applied = absorb_trailing_cnots(&mut gc, &mut ga, 3);
    assert!(applied.is_empty());
}

#[test]
fn remap_gates_renames_qubits() {
    let mut gates: VecDeque<RoutingGate> = VecDeque::from(vec![cx(0, 1), gate(GateName::RZ, 0, 2, 5)]);
    let map: HashMap<usize, usize> = [(0usize, 2usize), (1, 0), (2, 1)].into_iter().collect();
    remap_gates(&mut gates, &map);
    assert!(same_gates(&gates, &[cx(2, 0), gate(GateName::RZ, 2, 1, 5)]));
}

#[test]
fn optimal_gray_code_relays_the_nearest_control_most_often() {
    let mut m = RoutedMultiplexer::new(vec![], 5);
    m.arch_to_grey_map = [(10i64, 4usize), (11, 0), (12, 1), (13, 2), (14, 3)].into_iter().collect();
    m.root = 10;
    m.pairwise_dists.insert(10, [(11i64, 4i64), (12, 3), (13, 2), (14, 1)].into_iter().collect());
    m.get_optimal_gray_code();
    assert_eq!(m.gray_gate_queue.len(), 16);
    let expected = [cx(3, 4), cx(2, 4), cx(3, 4), cx(1, 4), cx(3, 4), cx(2, 4), cx(3, 4), cx(0, 4)];
    let first: Vec<&RoutingGate> = m.gray_gate_queue.iter().take(8).collect();
    assert!(same_gates(first, &expected));
    assert_eq!(m.gray_code[..4], [0, 8, 12, 4]);
}

#[test]
fn placement_uses_the_cluster_the_search_returns_on_the_map() {
    let mut m = RoutedMultiplexer::new(vec![[1, 2], [2, 3], [3, 4], [4, 5], [5, 6], [6, 1], [2, 5]], 3);
    let (cluster, dists) = synunitary::cluster_finding::find_closest_cluster(3, &m.neighbors, "auto");
    m.map_grey_qubits_to_arch_unitary_synth();
    for (i, node) in cluster.iter().enumerate() {
        assert_eq!(m.grey_to_arch_map[&i], *node);
    }
    assert_eq!(m.grey_to_arch_map.len(), cluster.len());
    assert_eq!(m.pairwise_dists, dists);
    assert_eq!(m.root, cluster[2]);
    assert_eq!(m.furthest_node, cluster[0]);
}

#[test]
fn level_gate_blocks_absorb_then_rename() {
    let rz = gate(GateName::RZ, 0, 2, 0);
    let routed: VecDeque<RoutingGate> = VecDeque::from(vec![cx(3, 0), cx(0, 1), rz, cx(0, 2), cx(1, 2)]);
    let (a, b, c, absorbed) = synunitary::level_blocks::level_gate_blocks(&routed, 2, None).unwrap();
    let mut gc = routed.clone();
    let mut ga = routed.clone();
    let expected_absorbed = absorb_trailing_cnots(&mut gc, &mut ga, 2);
    assert!(same_gates(&absorbed, &expected_absorbed));
    assert!(same_gates(&a, &ga.iter().copied().collect::<Vec<_>>()));
    assert!(same_gates(&c, &gc.iter().copied().collect::<Vec<_>>()));
    assert!(same_gates(&b, &routed.iter().copied().collect::<Vec<_>>()));
    assert!(!absorbed.is_empty());

    let z: HashMap<usize, usize> = [(0usize, 1usize), (1, 0), (2, 2), (3, 3)].into_iter().collect();
    let (a2, b2, c2, absorbed2) = synunitary::level_blocks::level_gate_blocks(&routed, 2, Some(&z)).unwrap();
    assert!(same_gates(&absorbed2, &expected_absorbed));
    let mut ga2 = ga.clone();
    remap_gates(&mut ga2, &z);
    let mut gc2 = gc.clone();
    remap_gates(&mut gc2, &z);
    assert!(same_gates(&a2, &ga2.iter().copied().collect::<Vec<_>>()));
    assert!(same_gates(&c2, &gc2.iter().copied().collect::<Vec<_>>()));
    assert!(same_gates(&b2, &[cx(3, 1), cx(1, 0), gate(GateName::RZ, 1, 2, 0), cx(1, 2), cx(0, 2)]));
    assert_eq!(absorbed.len(), 3);

    let partial: HashMap<usize, usize> = [(0usize, 1usize)].into_iter().collect();
    assert!(synunitary::level_blocks::level_gate_blocks(&routed, 2, Some(&partial)).is_none());
}

#[test]
fn emit_block_wraps_the_block_in_swaps_and_hadamards() {
    let mut z = BlockZXZ::new(vec![]);
    z.original_multiplexer.arch_to_grey_map = [(5i64, 0usize), (6, 1), (7, 2)].into_iter().collect();
    z.swaps_per_level.insert(0, Some(vec![5, 6, 7]));
    z.swap_maps.insert(0, Some([(0usize, 2usize), (1, 1), (2, 0)].into_iter().collect()));
    let block: VecDeque<RoutingGate> = VecDeque::from(vec![cx(0, 1)]);
    assert!(z.emit_block(0, &block, true, 2));
    let swap = |a: usize, b: usize| gate(GateName::SWAP, a, b, 0);
    let h = gate(GateName::H, 0, 2, 0);
    assert!(same_gates(&z.gate_queue, &[h, swap(1, 2), swap(0, 1), cx(0, 1), swap(0, 1), swap(1, 2), h]));
    let mut plain = BlockZXZ::new(vec![]);
    assert!(plain.emit_block(3, &block, false, 2));
    assert!(same_gates(&plain.gate_queue, &[cx(0, 1)]));
    z.swaps_per_level.insert(1, Some(vec![5, 9]));
    z.swap_maps.insert(1, Some(HashMap::new()));
    let before = z.gate_queue.len();
    assert!(!z.emit_block(1, &block, false, 2));
    assert_eq!(z.gate_queue.len(), before);
}
