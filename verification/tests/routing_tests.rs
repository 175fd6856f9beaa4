use std::collections::{HashMap, HashSet, VecDeque};

use synunitary::routing::{GateName, RoutedMultiplexer, RoutingGate};

fn gate(name: GateName, ctrl: usize, targ: usize, angle: usize) -> RoutingGate {
    RoutingGate { name, ctrl, targ, angle }
}

fn cx(ctrl: usize, targ: usize) -> RoutingGate {
    gate(GateName::CX, ctrl, targ, 0)
}

/// Field-by-field comparison: `==` on gates compares a target with a control.
fn same(a: &RoutingGate, b: &RoutingGate) -> bool {
    a.name == b.name && a.ctrl == b.ctrl && a.targ == b.targ && a.angle == b.angle
}

fn same_queue(q: &VecDeque<RoutingGate>, expected: &[RoutingGate]) -> bool {
    q.len() == expected.len() && q.iter().zip(expected.iter()).all(|(a, b)| same(a, b))
}

fn parities(pairs: &[(i64, i64)]) -> HashMap<i64, i64> {
    pairs.iter().copied().collect()
}

/// Three qubits on nodes 10, 11 and 12, each with a path of three nodes.
fn three_qubits() -> RoutedMultiplexer {
    let mut m = RoutedMultiplexer::new(vec![[10, 11], [11, 12]], 3);
    m.grey_to_arch_map = [(0usize, 10i64), (1, 11), (2, 12)].into_iter().collect();
    m.arch_to_grey_map = [(10i64, 0usize), (11, 1), (12, 2)].into_iter().collect();
    m.optimal_neighborhood.insert(10, vec![11, 12, 10]);
    m.optimal_neighborhood.insert(11, vec![10, 12, 11]);
    m.optimal_neighborhood.insert(12, vec![10, 11, 12]);
    m
}

#[test]
fn new_builds_an_undirected_neighbour_map() {
    let m = RoutedMultiplexer::new(vec![[1, 2], [2, 3], [3, 1], [4, 3]], 3);
    let expect = |xs: &[i64]| -> HashSet<i64> { xs.iter().copied().collect() };
    assert_eq!(m.neighbors.len(), 4);
    assert_eq!(m.neighbors[&1], expect(&[2, 3]));
    assert_eq!(m.neighbors[&2], expect(&[1, 3]));
    assert_eq!(m.neighbors[&3], expect(&[1, 2, 4]));
    assert_eq!(m.neighbors[&4], expect(&[3]));
    assert_eq!(m.num_qubits, 3);
    assert_eq!(m.num_control, 2);
    assert_eq!(m.root, 0);
    assert_eq!(m.num_angles, 0);
    assert!(m.gate_queue.is_empty());
    assert!(m.arch_to_grey_map.is_empty());
}

#[test]
fn long_range_cnot_cost_counts_relay_cnots() {
    let mut m = RoutedMultiplexer::new(vec![], 2);
    assert_eq!(m.long_range_cnot_cost(0), 1);
    assert_eq!(m.long_range_cnot_cost(1), 1);
    assert_eq!(m.long_range_cnot_cost(2), 4);
    assert_eq!(m.long_range_cnot_cost(3), 8);
    assert_eq!(m.long_range_cnot_cost(-5), 1);
}

#[test]
fn cancel_or_append_appends_a_different_cnot() {
    let mut m = RoutedMultiplexer::new(vec![], 3);
    m.gate_queue.push_back(cx(0, 1));
    m.cancel_or_append(cx(0, 1), false);
    // CX(0, 1) does not equal itself under `==` on gates, so it stays.
    assert!(same_queue(&m.gate_queue, &[cx(0, 1), cx(0, 1)]));
}

#[test]
fn cancel_or_append_cancels_an_equal_cnot() {
    let mut m = RoutedMultiplexer::new(vec![], 3);
    m.gate_queue.push_back(cx(1, 1));
    m.cancel_or_append(cx(1, 5), false);
    assert!(m.gate_queue.is_empty());
}

#[test]
fn cancel_or_append_rotates_a_new_term() {
    let mut m = RoutedMultiplexer::new(vec![], 3);
    m.gate_queue.push_back(gate(GateName::RZ, 0, 2, 0));
    m.state = parities(&[(0, 1), (1, 2), (2, 6)]);
    m.discovered_pp_terms.insert(4);
    m.state_to_angle.insert(6, 3);
    m.cancel_or_append(cx(0, 2), false);
    assert!(same_queue(&m.gate_queue, &[gate(GateName::RZ, 0, 2, 0), cx(0, 2), gate(GateName::RZ, 0, 2, 3)]));
    let terms: HashSet<i64> = [4, 6].into_iter().collect();
    assert_eq!(m.discovered_pp_terms, terms);
}

#[test]
fn cancel_or_append_drops_a_known_term_when_ignoring() {
    let mut m = RoutedMultiplexer::new(vec![], 3);
    m.gate_queue.push_back(gate(GateName::RZ, 0, 2, 0));
    m.state = parities(&[(0, 1), (1, 2), (2, 4)]);
    m.discovered_pp_terms.insert(4);
    m.cancel_or_append(cx(0, 2), true);
    assert!(same_queue(&m.gate_queue, &[gate(GateName::RZ, 0, 2, 0)]));
    assert_eq!(m.state, parities(&[(0, 1), (1, 2), (2, 5)]));
}

#[test]
fn cancel_or_append_keeps_a_known_term_without_ignoring() {
    let mut m = RoutedMultiplexer::new(vec![], 3);
    m.gate_queue.push_back(gate(GateName::RZ, 0, 2, 0));
    m.state = parities(&[(0, 1), (1, 2), (2, 4)]);
    m.discovered_pp_terms.insert(4);
    m.cancel_or_append(cx(0, 2), false);
    assert!(same_queue(&m.gate_queue, &[gate(GateName::RZ, 0, 2, 0), cx(0, 2)]));
    assert_eq!(m.state, parities(&[(0, 1), (1, 2), (2, 4)]));
}

#[test]
fn long_range_cnot_relays_along_the_path() {
    let mut m = three_qubits();
    m.gate_queue.push_back(gate(GateName::RZ, 0, 2, 0));
    m.state = parities(&[(0, 1), (1, 2), (2, 4)]);
    m.discovered_pp_terms.insert(4);
    m.long_range_cnot(vec![10, 11, 12], true);
    assert!(same_queue(&m.gate_queue, &[gate(GateName::RZ, 0, 2, 0), cx(2, 1), cx(1, 0), cx(1, 0)]));
    assert_eq!(m.state, parities(&[(0, 1), (1, 6), (2, 7)]));
}

#[test]
fn reset_state_relays_the_set_bits() {
    let mut m = three_qubits();
    m.gate_queue.push_back(gate(GateName::RZ, 0, 2, 0));
    m.state = parities(&[(0, 1), (1, 2), (2, 4)]);
    m.discovered_pp_terms.insert(4);
    m.reset_state();
    assert!(same_queue(&m.gate_queue, &[gate(GateName::RZ, 0, 2, 0), cx(2, 1), cx(1, 0), cx(1, 0)]));
    assert_eq!(m.state, parities(&[(0, 1), (1, 6), (2, 7)]));
}

#[test]
fn execute_gates_without_a_sweep_only_rotates() {
    let mut m = RoutedMultiplexer::new(vec![], 1);
    m.num_angles = 1;
    let (length, gates) = m.execute_gates();
    assert_eq!(length, 0);
    assert!(same_queue(&gates, &[gate(GateName::RZ, 0, 0, 0)]));
    assert_eq!(m.state, parities(&[(0, 1)]));
    let terms: HashSet<i64> = [1].into_iter().collect();
    assert_eq!(m.discovered_pp_terms, terms);
    assert!(m.state_to_angle.is_empty());
}

#[test]
fn execute_gates_relays_the_sweep_and_resets() {
    let mut m = three_qubits();
    m.gray_gate_queue.push_back(cx(0, 2));
    m.gray_gate_queue.push_back(cx(1, 2));
    m.gray_state_queue.push_back(4);
    m.gray_state_queue.push_back(5);
    m.num_angles = 2;
    let (length, gates) = m.execute_gates();
    assert_eq!(length, 0);
    let expected = [
        gate(GateName::RZ, 0, 2, 0),
        cx(0, 2),
        cx(2, 1),
        cx(2, 1),
        cx(1, 2),
        cx(2, 0),
        cx(2, 0),
        cx(2, 1),
        cx(1, 0),
        cx(1, 0),
        cx(2, 1),
        cx(1, 0),
        cx(1, 0),
    ];
    assert!(same_queue(&gates, &expected));
    assert!(same_queue(&m.gate_queue, &expected));
    assert_eq!(m.state, parities(&[(0, 1), (1, 1), (2, 0)]));
    let angles: HashMap<i64, usize> = [(4, 0), (5, 1)].into_iter().collect();
    assert_eq!(m.state_to_angle, angles);
    let terms: HashSet<i64> = [4].into_iter().collect();
    assert_eq!(m.discovered_pp_terms, terms);
}

#[test]
fn find_missing_term_and_replace_mapped_angles_change_nothing() {
    let mut m = three_qubits();
    m.state = parities(&[(0, 1)]);
    m.find_missing_term([5, 6].into_iter().collect());
    m.replace_mapped_angles();
    assert_eq!(m.state, parities(&[(0, 1)]));
    assert_eq!(m.grey_to_arch_map.len(), 3);
}

#[test]
fn duplicate_copies_every_field() {
    let mut m = three_qubits();
    m.gate_queue.push_back(cx(0, 1));
    m.arch_qubits.insert(10);
    let d = m.duplicate();
    assert_eq!(d.arch_to_grey_map, m.arch_to_grey_map);
    assert_eq!(d.optimal_neighborhood, m.optimal_neighborhood);
    assert_eq!(d.arch_qubits, m.arch_qubits);
    assert!(same_queue(&d.gate_queue, &[cx(0, 1)]));
    assert_eq!(d.num_qubits, 3);
}

#[test]
fn long_range_cnot_emits_only_neighbour_cnots_and_rotations() {
    let mut m = three_qubits();
    m.gate_queue.push_back(gate(GateName::RZ, 0, 2, 0));
    m.state = parities(&[(0, 1), (1, 2), (2, 4)]);
    m.discovered_pp_terms.insert(4);
    let before = m.gate_queue.len();
    m.long_range_cnot(vec![10, 11, 12], false);
    assert!(m.gate_queue.len() <= before + 8 * 3);
    for g in m.gate_queue.iter().skip(before) {
        let neighbour_cnot = g.name == GateName::CX && (g.ctrl as i64 - g.targ as i64).abs() == 1;
        let rotation = g.name == GateName::RZ && g.targ == 2;
        assert!(neighbour_cnot || rotation);
    }
}
