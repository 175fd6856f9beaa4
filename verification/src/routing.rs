//! Routing of a uniformly controlled rotation onto a coupling graph: the qubits
//! of the multiplexer are placed on a tight cluster of hardware nodes and each
//! Gray-code CNOT is carried along a shortest path in that cluster.
use std::collections::{HashMap, HashSet, VecDeque};
use itertools::Itertools;
use vstd::prelude::*;
use crate::graph::adjacency;

verus! {

broadcast use vstd::std_specs::hash::group_hash_axioms;

/// The kind of a gate.
#[derive(Clone, Copy, Debug, PartialEq, Eq, Structural)]
pub enum GateName {
    RZ,
    RY,
    RX,
    H,
    CX,
    SWAP,
}

/// A gate of a routed circuit. The angle of a rotation is held as a position
/// in the multiplexer's list of angles; other gates carry position 0.
#[derive(Clone, Copy, Debug)]
pub struct RoutingGate {
    pub name: GateName,
    pub ctrl: usize,
    pub targ: usize,
    pub angle: usize,
}

impl PartialEq for RoutingGate {
    /// Two gates are equal when their names, controls and angles agree and the
    /// target of the first is the control of the second.
    fn eq(&self, other: &Self) -> (r: bool) {
        self.name == other.name && self.ctrl == other.ctrl && self.targ == other.ctrl && self.angle == other.angle
    }
}

impl vstd::std_specs::cmp::PartialEqSpecImpl for RoutingGate {
    open spec fn obeys_eq_spec() -> bool {
        true
    }

    open spec fn eq_spec(&self, other: &RoutingGate) -> bool {
        self.name == other.name && self.ctrl == other.ctrl && self.targ == other.ctrl && self.angle == other.angle
    }
}

/// A CNOT from `ctrl` to `targ`.
pub open spec fn cnot_gate(ctrl: usize, targ: usize) -> RoutingGate {
    RoutingGate { name: GateName::CX, ctrl, targ, angle: 0 }
}

/// The undirected graph of a coupling map: every endpoint is a node, and the
/// two ends of each edge are each other's neighbours.
pub open spec fn coupling_graph(edges: Seq<[i64; 2]>) -> Map<i64, Set<i64>> {
    Map::new(
        |v: i64| exists|i: int| #![trigger edges[i]] 0 <= i < edges.len() && (edges[i][0] == v || edges[i][1] == v),
        |v: i64|
            Set::new(
                |w: i64|
                    exists|i: int|
                        #![trigger edges[i]]
                        0 <= i < edges.len() && ((edges[i][0] == v && edges[i][1] == w) || (edges[i][1] == v
                            && edges[i][0] == w)),
            ),
    )
}

/// `g` with the undirected edge between `a` and `b` added.
pub open spec fn with_edge(g: Map<i64, Set<i64>>, a: i64, b: i64) -> Map<i64, Set<i64>> {
    Map::new(
        |v: i64| g.contains_key(v) || v == a || v == b,
        |v: i64|
            Set::new(
                |w: i64| (g.contains_key(v) && g[v].contains(w)) || (v == a && w == b) || (v == b && w == a),
            ),
    )
}

proof fn lemma_coupling_graph_push(e0: Seq<[i64; 2]>, edge: [i64; 2])
    ensures
        coupling_graph(e0.push(edge)) == with_edge(coupling_graph(e0), edge[0], edge[1]),
{
    let e = e0.push(edge);
    let (a, b) = (edge[0], edge[1]);
    let lhs = coupling_graph(e);
    let rhs = with_edge(coupling_graph(e0), a, b);
    assert(e[e0.len() as int] == edge);
    assert forall|v: i64| #[trigger] lhs.contains_key(v) <==> rhs.contains_key(v) by {
        if lhs.contains_key(v) && v != a && v != b {
            let k = choose|k: int| 0 <= k < e.len() && (e[k][0] == v || e[k][1] == v);
            assert(k < e0.len());
            assert(e0[k] == e[k]);
            assert(coupling_graph(e0).contains_key(v));
        }
        if coupling_graph(e0).contains_key(v) {
            assert(exists|k: int| 0 <= k < e0.len() && (e0[k][0] == v || e0[k][1] == v));
            let k = choose|k: int| 0 <= k < e0.len() && (e0[k][0] == v || e0[k][1] == v);
            assert(0 <= k < e0.len());
            assert(e[k] == e0[k]);
            assert(e[k][0] == v || e[k][1] == v);
            assert(lhs.contains_key(v));
        }
        if v == a {
            assert(e[e0.len() as int][0] == v);
            assert(lhs.contains_key(v));
        }
        if v == b {
            assert(e[e0.len() as int][1] == v);
            assert(lhs.contains_key(v));
        }
    }
    assert forall|v: i64| #[trigger] lhs.contains_key(v) implies lhs[v] =~= rhs[v] by {
        assert forall|w: i64| lhs[v].contains(w) <==> rhs[v].contains(w) by {
            let in_new = (v == a && w == b) || (v == b && w == a);
            if lhs[v].contains(w) && !in_new {
                let k = choose|k: int| 0 <= k < e.len() && ((e[k][0] == v && e[k][1] == w) || (e[k][1] == v && e[k][0] == w));
                assert(k < e0.len());
                assert(e0[k] == e[k]);
                assert(coupling_graph(e0).contains_key(v));
                assert(coupling_graph(e0)[v].contains(w));
            }
            if coupling_graph(e0).contains_key(v) && coupling_graph(e0)[v].contains(w) {
                let k = choose|k: int| 0 <= k < e0.len() && ((e0[k][0] == v && e0[k][1] == w) || (e0[k][1] == v && e0[k][0] == w));
                assert(e[k] == e0[k]);
            }
            if in_new {
                assert(e[e0.len() as int][0] == a && e[e0.len() as int][1] == b);
            }
        }
    }
    assert(lhs =~= rhs);
}

/// The coupling graph is undirected: `w` is a neighbour of `v` exactly when
/// `v` is a neighbour of `w`.
pub proof fn lemma_coupling_graph_symmetric(edges: Seq<[i64; 2]>)
    ensures
        crate::graph::is_symmetric(coupling_graph(edges)),
{
    let g = coupling_graph(edges);
    assert forall|u: i64, w: i64| #[trigger] crate::graph::succs(g, u).contains(w) implies crate::graph::succs(g, w).contains(u) by {
        assert(g.contains_key(u));
        let i = choose|i: int|
            #![trigger edges[i]]
            0 <= i < edges.len() && ((edges[i][0] == u && edges[i][1] == w) || (edges[i][1] == u && edges[i][0] == w));
        assert(g.contains_key(w));
        assert(g[w].contains(u));
    }
}

/// A uniformly controlled Z rotation being routed onto a coupling graph.
#[derive(Debug)]
pub struct RoutedMultiplexer {
    /// How many multiplexer angles the caller holds.
    pub num_angles: usize,
    pub num_qubits: i64,
    pub num_control: i64,
    pub neighbors: HashMap<i64, HashSet<i64>>,
    pub root: i64,
    pub furthest_node: i64,
    pub arch_to_grey_map: HashMap<i64, usize>,
    pub grey_to_arch_map: HashMap<usize, i64>,
    pub optimal_neighborhood: HashMap<i64, Vec<i64>>,
    pub pairwise_dists: HashMap<i64, HashMap<i64, i64>>,
    pub gray_code: Vec<i64>,
    pub gray_gate_queue: VecDeque<RoutingGate>,
    pub gray_state_queue: VecDeque<i64>,
    pub arch_qubits: HashSet<i64>,
    pub gate_queue: VecDeque<RoutingGate>,
    pub discovered_pp_terms: HashSet<i64>,
    pub state: HashMap<i64, i64>,
    /// For each parity term, the position of its angle in the multiplexer's list.
    pub state_to_angle: HashMap<i64, usize>,
}

impl RoutedMultiplexer {
    /// A multiplexer on `num_qubits` qubits over the coupling graph of
    /// `coupling_map`, with nothing placed or routed yet.
    pub fn new(coupling_map: Vec<[i64; 2]>, num_qubits: i64) -> (r: Self)
        requires
            num_qubits > i64::MIN,
        ensures
            adjacency(&r.neighbors) == coupling_graph(coupling_map@),
            r.num_angles == 0,
            r.num_qubits == num_qubits,
            r.num_control == num_qubits - 1,
            r.root == 0,
            r.furthest_node == 0,
            r.arch_to_grey_map@ == Map::<i64, usize>::empty(),
            r.grey_to_arch_map@ == Map::<usize, i64>::empty(),
            r.optimal_neighborhood@ == Map::<i64, Vec<i64>>::empty(),
            r.pairwise_dists@ == Map::<i64, HashMap<i64, i64>>::empty(),
            r.gray_code@ == Seq::<i64>::empty(),
            r.gray_gate_queue@ == Seq::<RoutingGate>::empty(),
            r.gray_state_queue@ == Seq::<i64>::empty(),
            r.arch_qubits@ == Set::<i64>::empty(),
            r.gate_queue@ == Seq::<RoutingGate>::empty(),
            r.discovered_pp_terms@ == Set::<i64>::empty(),
            r.state@ == Map::<i64, i64>::empty(),
            r.state_to_angle@ == Map::<i64, usize>::empty(),
    {
        let mut neighbors: HashMap<i64, HashSet<i64>> = HashMap::new();
        let mut i: usize = 0;
        while i < coupling_map.len()
            invariant
                0 <= i <= coupling_map.len(),
                adjacency(&neighbors) == coupling_graph(coupling_map@.take(i as int)),
            decreases coupling_map.len() - i,
        {
            let a = coupling_map[i][0];
            let b = coupling_map[i][1];
            let ghost before = adjacency(&neighbors);
            assert(a == coupling_map@[i as int][0] && b == coupling_map@[i as int][1]);
            let mut set_a = match neighbors.remove(&a) {
                Some(s) => s,
                None => HashSet::new(),
            };
            set_a.insert(b);
            neighbors.insert(a, set_a);
            let mut set_b = match neighbors.remove(&b) {
                Some(s) => s,
                None => HashSet::new(),
            };
            set_b.insert(a);
            neighbors.insert(b, set_b);
            proof {
                let e = coupling_map@.take(i + 1);
                let e0 = coupling_map@.take(i as int);
                assert(e =~= e0.push(coupling_map@[i as int]));
                lemma_coupling_graph_push(e0, coupling_map@[i as int]);
                assert(adjacency(&neighbors) =~= with_edge(before, a, b)) by {
                    assert forall|v: i64| #[trigger] adjacency(&neighbors).contains_key(v) implies adjacency(&neighbors)[v] =~= with_edge(before, a, b)[v] by {
                    }
                }
            }
            i = i + 1;
        }
        proof {
            assert(coupling_map@.take(coupling_map.len() as int) =~= coupling_map@);
        }
        RoutedMultiplexer {
            num_angles: 0,
            num_qubits,
            num_control: num_qubits - 1,
            neighbors: neighbors,
            root: 0,
            furthest_node: 0,
            arch_to_grey_map: HashMap::new(),
            grey_to_arch_map: HashMap::new(),
            optimal_neighborhood: HashMap::new(),
            pairwise_dists: HashMap::new(),
            gray_code: Vec::new(),
            gray_gate_queue: VecDeque::new(),
            gray_state_queue: VecDeque::new(),
            arch_qubits: HashSet::new(),
            gate_queue: VecDeque::new(),
            discovered_pp_terms: HashSet::new(),
            state: HashMap::new(),
            state_to_angle: HashMap::new(),
        }
    }

    /// The CNOT count of a CNOT between qubits `dist` edges apart: one for
    /// neighbours, `4 * dist - 4` otherwise.
    pub fn long_range_cnot_cost(&mut self, dist: i64) -> (cost: i64)
        requires
            dist <= i64::MAX / 4,
        ensures
            cost == if dist > 1 { 4 * dist - 4 } else { 1 },
            *final(self) == *old(self),
    {
        if dist > 1 {
            4 * dist - 4
        } else {
            1
        }
    }
}


/// What routing changes: the gates emitted so far, the parity held by each
/// qubit, and the parity terms already given their rotation.
pub type RoutingLog = (Seq<RoutingGate>, Map<i64, i64>, Set<i64>);

/// The routing log of `m`.
pub open spec fn routing_log(m: &RoutedMultiplexer) -> RoutingLog {
    (m.gate_queue@, m.state@, m.discovered_pp_terms@)
}

/// `a == b` for gates: names, controls and angles agree and the target of `a`
/// is the control of `b`.
pub open spec fn same_gate(a: RoutingGate, b: RoutingGate) -> bool {
    a.name == b.name && a.ctrl == b.ctrl && a.targ == b.ctrl && a.angle == b.angle
}

/// A Z rotation on `targ` by the angle at position `angle`.
pub open spec fn rz_gate(targ: usize, angle: usize) -> RoutingGate {
    RoutingGate { name: GateName::RZ, ctrl: 0, targ, angle }
}

/// `cancel_or_append` can run on `log`: there is a last gate, and the lookups
/// it makes when `cnot` targets the rotation qubit succeed.
pub open spec fn cancel_defined(nc: i64, angles: Map<i64, usize>, log: RoutingLog, cnot: RoutingGate, ignore: bool) -> bool {
    let (q, st, disc) = log;
    &&& q.len() >= 1
    &&& cnot.targ == nc as usize ==> {
        &&& st.contains_key(nc)
        &&& !disc.contains(st[nc]) ==> angles.contains_key(st[nc])
        &&& (disc.contains(st[nc]) && ignore && !same_gate(q.last(), cnot)) ==> {
            &&& st.contains_key(cnot.ctrl as i64)
            &&& st.contains_key(cnot.targ as i64)
        }
    }
}

/// The effect of `cancel_or_append`: a CNOT equal to the last gate cancels it,
/// any other is appended. When it targets the rotation qubit, a parity term not
/// seen before gets its Z rotation; with `ignore`, an appended CNOT that yields
/// a known term is dropped again and its target takes the XOR of the two parities.
pub open spec fn cancel_step(nc: i64, angles: Map<i64, usize>, log: RoutingLog, cnot: RoutingGate, ignore: bool) -> RoutingLog {
    let (q, st, disc) = log;
    let cancelled = same_gate(q.last(), cnot);
    let q1 = if cancelled { q.drop_last() } else { q.push(cnot) };
    if cnot.targ == nc as usize {
        let t = st[nc];
        if !disc.contains(t) {
            (q1.push(rz_gate(nc as usize, angles[t])), st, disc.insert(t))
        } else if ignore && !cancelled {
            (q1.drop_last(), st.insert(cnot.targ as i64, st[cnot.ctrl as i64] ^ st[cnot.targ as i64]), disc)
        } else {
            (q1, st, disc)
        }
    } else {
        (q1, st, disc)
    }
}

/// One relay step can run: both qubits hold a parity, and the CNOT can be
/// placed.
pub open spec fn relay_step_defined(
    nc: i64,
    angles: Map<i64, usize>,
    log: RoutingLog,
    step: (usize, usize, i64),
    ignore: bool,
) -> bool {
    let (c, t, slot) = step;
    let st = log.1;
    &&& st.contains_key(c as i64)
    &&& st.contains_key(t as i64)
    &&& cancel_defined(nc, angles, (log.0, st.insert(slot, st[c as i64] ^ st[t as i64]), log.2), cnot_gate(c, t), ignore)
}

/// One relay step: qubit `slot` takes the XOR of the parities of `c` and `t`,
/// then the CNOT from `c` to `t` is placed.
pub open spec fn relay_step(nc: i64, angles: Map<i64, usize>, log: RoutingLog, step: (usize, usize, i64), ignore: bool) -> RoutingLog {
    let (c, t, slot) = step;
    let st = log.1;
    cancel_step(nc, angles, (log.0, st.insert(slot, st[c as i64] ^ st[t as i64]), log.2), cnot_gate(c, t), ignore)
}

/// The steps run in turn.
pub open spec fn run_relay(nc: i64, angles: Map<i64, usize>, log: RoutingLog, steps: Seq<(usize, usize, i64)>, ignore: bool) -> RoutingLog
    decreases steps.len(),
{
    if steps.len() == 0 {
        log
    } else {
        relay_step(nc, angles, run_relay(nc, angles, log, steps.drop_last(), ignore), steps.last(), ignore)
    }
}

/// Every step can run when its turn comes.
pub open spec fn relay_defined(nc: i64, angles: Map<i64, usize>, log: RoutingLog, steps: Seq<(usize, usize, i64)>, ignore: bool) -> bool
    decreases steps.len(),
{
    steps.len() == 0 || (relay_defined(nc, angles, log, steps.drop_last(), ignore) && relay_step_defined(
        nc,
        angles,
        run_relay(nc, angles, log, steps.drop_last(), ignore),
        steps.last(),
        ignore,
    ))
}

/// `n` when it is positive, otherwise 0.
pub open spec fn count_of(n: int) -> nat {
    if n > 0 {
        n as nat
    } else {
        0
    }
}

/// The steps of a long-range CNOT along the qubit path `gp`: forwards along
/// the path, back from position `len - 4` to 1, forwards again from position
/// 1, and back from `len - 4` to 2.
pub open spec fn relay_steps(gp: Seq<usize>) -> Seq<(usize, usize, i64)> {
    let len = gp.len() as int;
    Seq::new(count_of(len - 1), |i: int| (gp[i], gp[i + 1], (i + 1) as i64)) + Seq::new(
        count_of(len - 4),
        |i: int| (gp[len - 5 - i], gp[len - 4 - i], (len - 4 - i) as i64),
    ) + Seq::new(count_of(len - 2), |i: int| (gp[i + 1], gp[i + 2], (i + 2) as i64)) + Seq::new(
        count_of(len - 5),
        |i: int| (gp[len - 5 - i], gp[len - 4 - i], (len - 4 - i) as i64),
    )
}

/// The qubit path of a hardware path: each node's qubit, last node first.
pub open spec fn grey_path(a2g: Map<i64, usize>, arch_path: Seq<i64>) -> Seq<usize> {
    Seq::new(arch_path.len(), |i: int| a2g[arch_path[arch_path.len() - 1 - i]])
}

/// Every node of the path has a qubit.
pub open spec fn path_placed(a2g: Map<i64, usize>, arch_path: Seq<i64>) -> bool {
    forall|i: int| 0 <= i < arch_path.len() ==> a2g.contains_key(#[trigger] arch_path[i])
}

/// The fields that routing leaves alone are the same in `a` and `b`.
pub open spec fn same_placement(a: &RoutedMultiplexer, b: &RoutedMultiplexer) -> bool {
    &&& a.num_angles == b.num_angles
    &&& a.num_qubits == b.num_qubits
    &&& a.num_control == b.num_control
    &&& a.neighbors@ == b.neighbors@
    &&& a.root == b.root
    &&& a.furthest_node == b.furthest_node
    &&& a.arch_to_grey_map@ == b.arch_to_grey_map@
    &&& a.grey_to_arch_map@ == b.grey_to_arch_map@
    &&& a.optimal_neighborhood@ == b.optimal_neighborhood@
    &&& a.pairwise_dists@ == b.pairwise_dists@
    &&& a.gray_code@ == b.gray_code@
    &&& a.gray_gate_queue@ == b.gray_gate_queue@
    &&& a.gray_state_queue@ == b.gray_state_queue@
    &&& a.arch_qubits@ == b.arch_qubits@
    &&& a.state_to_angle@ == b.state_to_angle@
}

proof fn lemma_relay_defined_prefix(
    nc: i64,
    angles: Map<i64, usize>,
    log: RoutingLog,
    steps: Seq<(usize, usize, i64)>,
    ignore: bool,
    k: int,
)
    requires
        relay_defined(nc, angles, log, steps, ignore),
        0 <= k <= steps.len(),
    ensures
        relay_defined(nc, angles, log, steps.take(k), ignore),
    decreases steps.len() - k,
{
    if k < steps.len() {
        assert(steps.drop_last().take(k) =~= steps.take(k));
        lemma_relay_defined_prefix(nc, angles, log, steps.drop_last(), ignore, k);
    } else {
        assert(steps.take(k) =~= steps);
    }
}

impl RoutedMultiplexer {
    /// Places `cnot` after the gates emitted so far (see `cancel_step`).
    pub fn cancel_or_append(&mut self, cnot: RoutingGate, ignore: bool)
        requires
            cancel_defined(old(self).num_control, old(self).state_to_angle@, routing_log(old(self)), cnot, ignore),
        ensures
            routing_log(final(self)) == cancel_step(old(self).num_control, old(self).state_to_angle@, routing_log(old(self)), cnot, ignore),
            same_placement(final(self), old(self)),
    {
        let ghost log0 = routing_log(self);
        let prev = match self.gate_queue.pop_back() {
            Some(g) => g,
            None => { return; },
        };
        let mut cancelled = true;
        if prev != cnot {
            self.gate_queue.push_back(prev);
            self.gate_queue.push_back(cnot);
            cancelled = false;
        }
        proof {
            assert(prev == log0.0.last());
            assert(cancelled == same_gate(log0.0.last(), cnot));
            if cancelled {
                assert(self.gate_queue@ =~= log0.0.drop_last());
            } else {
                assert(self.gate_queue@ =~= log0.0.push(cnot));
            }
        }
        if cnot.targ == self.num_control as usize {
            let t = match self.state.get(&self.num_control) {
                Some(x) => *x,
                None => 0,
            };
            if !self.discovered_pp_terms.contains(&t) {
                self.discovered_pp_terms.insert(t);
                let angle = match self.state_to_angle.get(&t) {
                    Some(a) => *a,
                    None => 0,
                };
                self.gate_queue.push_back(RoutingGate { name: GateName::RZ, ctrl: 0, targ: self.num_control as usize, angle });
            } else if ignore && !cancelled {
                self.gate_queue.pop_back();
                let state_control = match self.state.get(&(cnot.ctrl as i64)) {
                    Some(x) => *x,
                    None => 0,
                };
                let state_targ = match self.state.get(&(cnot.targ as i64)) {
                    Some(x) => *x,
                    None => 0,
                };
                self.state.insert(cnot.targ as i64, state_control ^ state_targ);
            }
        }
        proof {
            assert(routing_log(self) =~= cancel_step(old(self).num_control, old(self).state_to_angle@, log0, cnot, ignore));
        }
    }

    /// A CNOT between the ends of `arch_path`, carried along the path by nearest
    /// neighbour CNOTs (see `relay_steps`): the qubit path is the path's nodes
    /// mapped to their qubits, last node first.
    pub fn long_range_cnot(&mut self, arch_path: Vec<i64>, ignore: bool)
        requires
            path_placed(old(self).arch_to_grey_map@, arch_path@),
            arch_path.len() >= 3,
            relay_defined(
                old(self).num_control,
                old(self).state_to_angle@,
                routing_log(old(self)),
                relay_steps(grey_path(old(self).arch_to_grey_map@, arch_path@)),
                ignore,
            ),
        ensures
            routing_log(final(self)) == run_relay(
                old(self).num_control,
                old(self).state_to_angle@,
                routing_log(old(self)),
                relay_steps(grey_path(old(self).arch_to_grey_map@, arch_path@)),
                ignore,
            ),
            same_placement(final(self), old(self)),
    {
        let ghost nc = self.num_control;
        let ghost angles = self.state_to_angle@;
        let ghost log0 = routing_log(self);
        let ghost gp_spec = grey_path(self.arch_to_grey_map@, arch_path@);
        let ghost steps = relay_steps(gp_spec);
        // The path as qubits, last node first.
        let mut grey: Vec<usize> = Vec::new();
        let mut r: usize = arch_path.len();
        while r > 0
            invariant
                0 <= r <= arch_path.len(),
                grey@.len() == arch_path.len() - r,
                gp_spec == grey_path(self.arch_to_grey_map@, arch_path@),
                path_placed(self.arch_to_grey_map@, arch_path@),
                forall|i: int| 0 <= i < grey@.len() ==> #[trigger] grey@[i] == gp_spec[i],
            decreases r,
        {
            let node = arch_path[r - 1];
            let q = match self.arch_to_grey_map.get(&node) {
                Some(x) => *x,
                None => 0,
            };
            grey.push(q);
            r = r - 1;
        }
        proof {
            assert(grey@ =~= gp_spec);
        }
        let grey_path_dist = grey.len();
        let ghost mut done: int = 0;
        let mut i: usize = 0;
        while i < grey_path_dist - 1
            invariant
                grey@ == gp_spec,
                grey_path_dist == grey.len(),
                grey_path_dist >= 3,
                0 <= i <= grey_path_dist - 1,
                done == i,
                steps == relay_steps(gp_spec),
                nc == self.num_control,
                angles == self.state_to_angle@,
                relay_defined(nc, angles, log0, steps, ignore),
                routing_log(self) == run_relay(nc, angles, log0, steps.take(done), ignore),
                same_placement(self, old(self)),
            decreases grey_path_dist - 1 - i,
        {
            proof {
                assert(steps[done] == (grey@[i as int], grey@[i + 1], (i + 1) as i64));
            }
            self.relay_cnot(grey[i], grey[i + 1], (i + 1) as i64, ignore, Ghost(log0), Ghost(steps), Ghost(done));
            i = i + 1;
            proof { done = done + 1; }
        }
        let mut j: usize = grey_path_dist - 3;
        while j > 1
            invariant
                grey@ == gp_spec,
                grey_path_dist == grey.len(),
                grey_path_dist >= 3,
                1 <= j <= grey_path_dist - 3 || (j == 0 && grey_path_dist == 3),
                done == (grey_path_dist - 1) + (grey_path_dist - 3 - j),
                steps == relay_steps(gp_spec),
                nc == self.num_control,
                angles == self.state_to_angle@,
                relay_defined(nc, angles, log0, steps, ignore),
                routing_log(self) == run_relay(nc, angles, log0, steps.take(done), ignore),
                same_placement(self, old(self)),
            decreases j,
        {
            let jj = j - 1;
            proof {
                assert(steps[done] == (grey@[jj - 1], grey@[jj as int], jj as i64));
            }
            self.relay_cnot(grey[jj - 1], grey[jj], jj as i64, ignore, Ghost(log0), Ghost(steps), Ghost(done));
            j = jj;
            proof { done = done + 1; }
        }
        let mut k: usize = 1;
        while k < grey_path_dist - 1
            invariant
                grey@ == gp_spec,
                grey_path_dist == grey.len(),
                grey_path_dist >= 3,
                1 <= k <= grey_path_dist - 1,
                done == (grey_path_dist - 1) + count_of(grey_path_dist - 4) + (k - 1),
                steps == relay_steps(gp_spec),
                nc == self.num_control,
                angles == self.state_to_angle@,
                relay_defined(nc, angles, log0, steps, ignore),
                routing_log(self) == run_relay(nc, angles, log0, steps.take(done), ignore),
                same_placement(self, old(self)),
            decreases grey_path_dist - 1 - k,
        {
            proof {
                assert(steps[done] == (grey@[k as int], grey@[k + 1], (k + 1) as i64));
            }
            self.relay_cnot(grey[k], grey[k + 1], (k + 1) as i64, ignore, Ghost(log0), Ghost(steps), Ghost(done));
            k = k + 1;
            proof { done = done + 1; }
        }
        let mut l: usize = grey_path_dist - 3;
        while l > 2
            invariant
                grey@ == gp_spec,
                grey_path_dist == grey.len(),
                grey_path_dist >= 3,
                (2 <= l <= grey_path_dist - 3) || (l < 2 && grey_path_dist - 3 == l),
                done == (grey_path_dist - 1) + count_of(grey_path_dist - 4) + (grey_path_dist - 2)
                    + (grey_path_dist - 3 - l),
                steps == relay_steps(gp_spec),
                nc == self.num_control,
                angles == self.state_to_angle@,
                relay_defined(nc, angles, log0, steps, ignore),
                routing_log(self) == run_relay(nc, angles, log0, steps.take(done), ignore),
                same_placement(self, old(self)),
            decreases l,
        {
            let ll = l - 1;
            proof {
                assert(steps[done] == (grey@[ll - 1], grey@[ll as int], ll as i64));
            }
            self.relay_cnot(grey[ll - 1], grey[ll], ll as i64, ignore, Ghost(log0), Ghost(steps), Ghost(done));
            l = ll;
            proof { done = done + 1; }
        }
        proof {
            assert(done == steps.len());
            assert(steps.take(done) =~= steps);
        }
    }

    /// One step of a relay: `slot` takes the XOR of the parities of `c` and
    /// `t`, then the CNOT from `c` to `t` is placed. It is step `done` of `steps`.
    fn relay_cnot(
        &mut self,
        c: usize,
        t: usize,
        slot: i64,
        ignore: bool,
        Ghost(log0): Ghost<RoutingLog>,
        Ghost(steps): Ghost<Seq<(usize, usize, i64)>>,
        Ghost(done): Ghost<int>,
    )
        requires
            0 <= done < steps.len(),
            steps[done] == (c, t, slot),
            relay_defined(old(self).num_control, old(self).state_to_angle@, log0, steps, ignore),
            routing_log(old(self)) == run_relay(old(self).num_control, old(self).state_to_angle@, log0, steps.take(done), ignore),
        ensures
            routing_log(final(self)) == run_relay(old(self).num_control, old(self).state_to_angle@, log0, steps.take(done + 1), ignore),
            same_placement(final(self), old(self)),
    {
        let ghost nc = self.num_control;
        let ghost angles = self.state_to_angle@;
        proof {
            lemma_relay_defined_prefix(nc, angles, log0, steps, ignore, done + 1);
            assert(steps.take(done + 1).drop_last() =~= steps.take(done));
            assert(steps.take(done + 1).last() == steps[done]);
        }
        let state_ctrl = match self.state.get(&(c as i64)) {
            Some(x) => *x,
            None => 0,
        };
        let state_targ = match self.state.get(&(t as i64)) {
            Some(x) => *x,
            None => 0,
        };
        self.state.insert(slot, state_ctrl ^ state_targ);
        self.cancel_or_append(RoutingGate { name: GateName::CX, ctrl: c, targ: t, angle: 0 }, ignore);
    }
}


/// The hardware path of each placed node, as chosen for routing.
pub open spec fn neighborhood_paths(m: &RoutedMultiplexer) -> Map<i64, Seq<i64>> {
    m.optimal_neighborhood@.map_values(|p: Vec<i64>| p@)
}

/// The hardware path along which qubit `q` is relayed.
pub open spec fn qubit_path(m: &RoutedMultiplexer, q: usize) -> Seq<i64> {
    neighborhood_paths(m)[m.grey_to_arch_map@[q]]
}

/// Qubit `q` is placed and has a placed path of at least three nodes.
pub open spec fn qubit_relay_ready(m: &RoutedMultiplexer, q: usize) -> bool {
    &&& m.grey_to_arch_map@.contains_key(q)
    &&& m.optimal_neighborhood@.contains_key(m.grey_to_arch_map@[q])
    &&& path_placed(m.arch_to_grey_map@, qubit_path(m, q))
    &&& qubit_path(m, q).len() >= 3
}

/// The relay steps of qubit `q`'s path.
pub open spec fn qubit_relay(m: &RoutedMultiplexer, q: usize) -> Seq<(usize, usize, i64)> {
    relay_steps(grey_path(m.arch_to_grey_map@, qubit_path(m, q)))
}

/// Bit `i` of `x` is set.
pub open spec fn bit_set(x: i64, i: i64) -> bool {
    (x >> i) & 1 == 1
}

/// The first `k` rounds of `reset_state` from `log`: in round `i`, if bit `i`
/// of the rotation qubit's parity is set, qubit `i` is relayed to it again.
pub open spec fn reset_run(m: &RoutedMultiplexer, angles: Map<i64, usize>, log: RoutingLog, k: int) -> RoutingLog
    decreases k,
{
    if k <= 0 {
        log
    } else {
        let p = reset_run(m, angles, log, k - 1);
        if bit_set(p.1[m.num_control], (k - 1) as i64) {
            run_relay(m.num_control, angles, p, qubit_relay(m, (k - 1) as usize), false)
        } else {
            p
        }
    }
}

/// The first `k` rounds of `reset_state` can run.
pub open spec fn reset_defined(m: &RoutedMultiplexer, angles: Map<i64, usize>, log: RoutingLog, k: int) -> bool
    decreases k,
{
    k <= 0 || {
        let p = reset_run(m, angles, log, k - 1);
        &&& reset_defined(m, angles, log, k - 1)
        &&& p.1.contains_key(m.num_control)
        &&& bit_set(p.1[m.num_control], (k - 1) as i64) ==> {
            &&& qubit_relay_ready(m, (k - 1) as usize)
            &&& relay_defined(m.num_control, angles, p, qubit_relay(m, (k - 1) as usize), false)
        }
    }
}

proof fn lemma_reset_defined_prefix(m: &RoutedMultiplexer, angles: Map<i64, usize>, log: RoutingLog, k: int, j: int)
    requires
        reset_defined(m, angles, log, k),
        j <= k,
    ensures
        reset_defined(m, angles, log, j),
    decreases k - j,
{
    if j < k {
        lemma_reset_defined_prefix(m, angles, log, k - 1, j);
    }
}

/// `a` and `b` place and route the qubits alike: the relays and resets read
/// nothing else of a multiplexer.
pub open spec fn same_routes(a: &RoutedMultiplexer, b: &RoutedMultiplexer) -> bool {
    &&& a.num_qubits == b.num_qubits
    &&& a.num_control == b.num_control
    &&& a.arch_to_grey_map@ == b.arch_to_grey_map@
    &&& a.grey_to_arch_map@ == b.grey_to_arch_map@
    &&& a.optimal_neighborhood@ == b.optimal_neighborhood@
}

proof fn lemma_reset_same_placement(a: &RoutedMultiplexer, b: &RoutedMultiplexer, angles: Map<i64, usize>, log: RoutingLog, k: int)
    requires
        same_routes(a, b),
    ensures
        reset_run(a, angles, log, k) == reset_run(b, angles, log, k),
        reset_defined(a, angles, log, k) == reset_defined(b, angles, log, k),
    decreases k,
{
    if k > 0 {
        lemma_reset_same_placement(a, b, angles, log, k - 1);
        assert(neighborhood_paths(a) =~= neighborhood_paths(b));
    }
}

impl RoutedMultiplexer {
    /// For each qubit `i` whose bit is set in the rotation qubit's parity,
    /// relays qubit `i` to it once more (see `reset_run`).
    pub fn reset_state(&mut self)
        requires
            old(self).num_qubits <= 64,
            reset_defined(old(self), old(self).state_to_angle@, routing_log(old(self)), old(self).num_qubits as int),
        ensures
            routing_log(final(self)) == reset_run(
                old(self),
                old(self).state_to_angle@,
                routing_log(old(self)),
                old(self).num_qubits as int,
            ),
            same_placement(final(self), old(self)),
    {
        let ghost log0 = routing_log(self);
        let ghost m0 = *self;
        assert(m0 == *old(self));
        let mut i: i64 = 0;
        while i < self.num_qubits
            invariant
                0 <= i,
                i <= self.num_qubits || (self.num_qubits < 0 && i == 0),
                self.num_qubits <= 64,
                same_placement(self, &m0),
                reset_defined(&m0, m0.state_to_angle@, log0, m0.num_qubits as int),
                routing_log(self) == reset_run(&m0, m0.state_to_angle@, log0, i as int),
            decreases self.num_qubits - i,
        {
            proof {
                lemma_reset_defined_prefix(&m0, m0.state_to_angle@, log0, m0.num_qubits as int, i + 1);
                lemma_reset_same_placement(self, &m0, m0.state_to_angle@, log0, i + 1);
            }
            let t = match self.state.get(&self.num_control) {
                Some(x) => *x,
                None => 0,
            };
            if (t >> i) & 1 == 1 {
                let arch_qubit = match self.grey_to_arch_map.get(&(i as usize)) {
                    Some(x) => *x,
                    None => 0,
                };
                let arch_path = match self.optimal_neighborhood.get(&arch_qubit) {
                    Some(p) => p.clone(),
                    None => Vec::new(),
                };
                proof {
                    assert(arch_path@ =~= qubit_path(self, i as usize));
                }
                self.long_range_cnot(arch_path, false);
            }
            i = i + 1;
        }
        proof {
            if m0.num_qubits < 0 {
                assert(reset_run(&m0, m0.state_to_angle@, log0, m0.num_qubits as int) == log0);
            }
        }
    }
}


/// Position of each parity term's angle: the first `n` states of the Gray
/// sequence paired with positions `0, 1, ...`, a later pair overriding an
/// earlier one with the same state.
pub open spec fn angle_positions_upto(states: Seq<i64>, k: int) -> Map<i64, usize>
    decreases k,
{
    if k <= 0 {
        Map::empty()
    } else {
        angle_positions_upto(states, k - 1).insert(states[k - 1], (k - 1) as usize)
    }
}

/// The positions of the angles of the first `n` Gray states (see `angle_positions_upto`).
pub open spec fn angle_positions(states: Seq<i64>, n: nat) -> Map<i64, usize> {
    angle_positions_upto(states, if states.len() < n { states.len() as int } else { n as int })
}

/// Before routing, qubit `x` holds the parity `2^x`.
pub open spec fn initial_parities(nq: i64) -> Map<i64, i64> {
    Map::new(|x: i64| 0 <= x < nq, |x: i64| vstd::arithmetic::power2::pow2(x as nat) as i64)
}

/// Every parity term `t` with `2^nc <= t < 2^nq` has had its rotation.
pub open spec fn all_terms_found(disc: Set<i64>, nc: i64, nq: i64) -> bool {
    forall|t: int|
        vstd::arithmetic::power2::pow2(nc as nat) <= t < vstd::arithmetic::power2::pow2(nq as nat)
        ==> #[trigger] disc.contains(t as i64)
}

/// A relay whose hardware path is at most one edge long ignores repeated terms.
pub open spec fn ignores_repeats(m: &RoutedMultiplexer, q: usize) -> bool {
    qubit_path(m, q).len() - 1 <= 1
}

/// The first `k` Gray-code CNOTs of `gates`, each relayed along its control's path.
pub open spec fn gray_run(m: &RoutedMultiplexer, angles: Map<i64, usize>, log: RoutingLog, gates: Seq<RoutingGate>, k: int) -> RoutingLog
    decreases k,
{
    if k <= 0 {
        log
    } else {
        let p = gray_run(m, angles, log, gates, k - 1);
        let q = gates[k - 1].ctrl;
        run_relay(m.num_control, angles, p, qubit_relay(m, q), ignores_repeats(m, q))
    }
}

/// The first `k` Gray-code CNOTs can be relayed.
pub open spec fn gray_defined(m: &RoutedMultiplexer, angles: Map<i64, usize>, log: RoutingLog, gates: Seq<RoutingGate>, k: int) -> bool
    decreases k,
{
    k <= 0 || {
        let p = gray_run(m, angles, log, gates, k - 1);
        let q = gates[k - 1].ctrl;
        &&& gray_defined(m, angles, log, gates, k - 1)
        &&& qubit_relay_ready(m, q)
        &&& relay_defined(m.num_control, angles, p, qubit_relay(m, q), ignores_repeats(m, q))
    }
}

/// The log after `execute_gates` sets up: the rotation of the first angle
/// appended, the starting parities, and the first term found.
pub open spec fn execute_start(m: &RoutedMultiplexer) -> RoutingLog {
    (
        m.gate_queue@.push(rz_gate(m.num_control as usize, 0)),
        initial_parities(m.num_qubits),
        set![vstd::arithmetic::power2::pow2(m.num_control as nat) as i64],
    )
}

/// The angle positions `execute_gates` uses.
pub open spec fn execute_angles(m: &RoutedMultiplexer) -> Map<i64, usize> {
    angle_positions(m.gray_state_queue@, m.num_angles as nat)
}

/// The log after the Gray-code CNOTs have been relayed.
pub open spec fn execute_relayed(m: &RoutedMultiplexer) -> RoutingLog {
    gray_run(m, execute_angles(m), execute_start(m), m.gray_gate_queue@, m.gray_gate_queue@.len() as int)
}

/// The log after the parities are reset when they moved.
pub open spec fn execute_reset(m: &RoutedMultiplexer) -> RoutingLog {
    let r = execute_relayed(m);
    if r.1 != initial_parities(m.num_qubits) {
        reset_run(m, execute_angles(m), r, m.num_qubits as int)
    } else {
        r
    }
}

/// The final log of `execute_gates`: reset once more when some term is missing.
pub open spec fn execute_outcome(m: &RoutedMultiplexer) -> RoutingLog {
    let r = execute_reset(m);
    if !all_terms_found(r.2, m.num_control, m.num_qubits) {
        reset_run(m, execute_angles(m), r, m.num_qubits as int)
    } else {
        r
    }
}

/// `execute_gates` can run on `m`.
pub open spec fn execute_defined(m: &RoutedMultiplexer) -> bool {
    let angles = execute_angles(m);
    let r = execute_relayed(m);
    let r2 = execute_reset(m);
    &&& 0 <= m.num_control <= 62
    &&& 0 <= m.num_qubits <= 62
    &&& m.num_angles >= 1
    &&& gray_defined(m, angles, execute_start(m), m.gray_gate_queue@, m.gray_gate_queue@.len() as int)
    &&& r.1 != initial_parities(m.num_qubits) ==> reset_defined(m, angles, r, m.num_qubits as int)
    &&& !all_terms_found(r2.2, m.num_control, m.num_qubits) ==> reset_defined(m, angles, r2, m.num_qubits as int)
}

/// Whether a gate is not a Z rotation.
fn is_not_rotation_z(g: &RoutingGate) -> (r: bool)
    ensures
        r == (g.name != GateName::RZ),
{
    g.name != GateName::RZ
}

/// `Itertools::try_len` on the gates that are not Z rotations.
///
/// Trusted: `try_len` answers only when the size hint's bounds agree, and a
/// `filter` adaptor's size hint has lower bound 0 and the queue's length as
/// upper bound (the examples in the documentation of `try_len` and of
/// `Iterator::size_hint` show exactly this for `filter`). So it answers only
/// for an empty queue, and then with 0.
#[verifier::external_body]
fn non_rotation_count(gates: &VecDeque<RoutingGate>) -> (len: Option<usize>)
    ensures
        gates@.len() == 0 ==> len == Some(0usize),
        gates@.len() > 0 ==> len is None,
{
    gates.iter().filter(|g| is_not_rotation_z(g)).try_len().ok()
}

/// `2^e`.
pub(crate) fn power_of_two(e: i64) -> (r: i64)
    requires
        0 <= e <= 62,
    ensures
        r == vstd::arithmetic::power2::pow2(e as nat),
{
    let mut r: i64 = 1;
    let mut i: i64 = 0;
    proof {
        vstd::arithmetic::power2::lemma2_to64();
    }
    while i < e
        invariant
            0 <= i <= e <= 62,
            r == vstd::arithmetic::power2::pow2(i as nat),
        decreases e - i,
    {
        proof {
            vstd::arithmetic::power2::lemma_pow2_unfold((i + 1) as nat);
            vstd::arithmetic::power2::lemma_pow2_strictly_increases((i + 1) as nat, 63);
            vstd::arithmetic::power2::lemma2_to64_rest();
        }
        r = r * 2;
        i = i + 1;
    }
    r
}

/// The parities before routing: qubit `x` holds `2^x`.
pub(crate) fn starting_parities(nq: i64) -> (r: HashMap<i64, i64>)
    requires
        0 <= nq <= 63,
    ensures
        r@ == initial_parities(nq),
{
    let mut parities: HashMap<i64, i64> = HashMap::new();
    let mut x: i64 = 0;
    while x < nq
        invariant
            0 <= x <= nq <= 63,
            parities@ == initial_parities(x),
        decreases nq - x,
    {
        let p = power_of_two(x);
        parities.insert(x, p);
        proof {
            assert(parities@ =~= initial_parities((x + 1) as i64));
        }
        x = x + 1;
    }
    parities
}

/// Whether two parity maps are equal.
fn same_parities(a: &HashMap<i64, i64>, b: &HashMap<i64, i64>) -> (r: bool)
    ensures
        r == (a@ == b@),
{
    let keys = crate::graph::map_keys(a);
    if a.len() != b.len() {
        proof {
            if a@ == b@ {
                assert(a@.len() == b@.len());
            }
        }
        return false;
    }
    let mut i: usize = 0;
    while i < keys.len()
        invariant
            0 <= i <= keys.len(),
            keys@.to_set() == a@.dom(),
            keys@.no_duplicates(),
            a@.len() == b@.len(),
            forall|j: int| 0 <= j < i ==> #[trigger] b@.contains_key(keys@[j]) && b@[keys@[j]] == a@[keys@[j]],
        decreases keys.len() - i,
    {
        let k = keys[i];
        assert(keys@.to_set().contains(k));
        match b.get(&k) {
            Some(v) => {
                let av = match a.get(&k) {
                    Some(x) => *x,
                    None => 0,
                };
                if *v != av {
                    return false;
                }
                proof {
                    assert(b@.contains_key(keys@[i as int]) && b@[keys@[i as int]] == a@[keys@[i as int]]);
                }
            },
            None => {
                return false;
            },
        }
        i = i + 1;
    }
    proof {
        assert(a@.dom().subset_of(b@.dom())) by {
            assert forall|k: i64| a@.contains_key(k) implies b@.contains_key(k) by {
                assert(keys@.to_set().contains(k));
                let j = choose|j: int| 0 <= j < keys@.len() && keys@[j] == k;
                assert(b@.contains_key(keys@[j]));
            }
        }
        assert(a@.dom() =~= b@.dom()) by {
            vstd::set_lib::lemma_len_subset(a@.dom(), b@.dom());
            if !(b@.dom().subset_of(a@.dom())) {
                let x = choose|x: i64| b@.dom().contains(x) && !a@.dom().contains(x);
                vstd::set_lib::lemma_len_subset(a@.dom(), b@.dom().remove(x));
            }
        }
        assert forall|k: i64| a@.contains_key(k) implies b@[k] == a@[k] by {
            assert(keys@.to_set().contains(k));
            let j = choose|j: int| 0 <= j < keys@.len() && keys@[j] == k;
            assert(b@.contains_key(keys@[j]));
        }
        assert(a@ =~= b@);
    }
    true
}


proof fn lemma_gray_same_routes(
    a: &RoutedMultiplexer,
    b: &RoutedMultiplexer,
    angles: Map<i64, usize>,
    log: RoutingLog,
    gates: Seq<RoutingGate>,
    k: int,
)
    requires
        same_routes(a, b),
    ensures
        gray_run(a, angles, log, gates, k) == gray_run(b, angles, log, gates, k),
        gray_defined(a, angles, log, gates, k) == gray_defined(b, angles, log, gates, k),
    decreases k,
{
    if k > 0 {
        lemma_gray_same_routes(a, b, angles, log, gates, k - 1);
        assert(neighborhood_paths(a) =~= neighborhood_paths(b));
    }
}

proof fn lemma_gray_defined_prefix(
    m: &RoutedMultiplexer,
    angles: Map<i64, usize>,
    log: RoutingLog,
    gates: Seq<RoutingGate>,
    k: int,
    j: int,
)
    requires
        gray_defined(m, angles, log, gates, k),
        j <= k,
    ensures
        gray_defined(m, angles, log, gates, j),
    decreases k - j,
{
    if j < k {
        lemma_gray_defined_prefix(m, angles, log, gates, k - 1, j);
    }
}

/// `a` and `b` hold the same values in every field.
pub open spec fn same_state(a: &RoutedMultiplexer, b: &RoutedMultiplexer) -> bool {
    &&& same_placement(a, b)
    &&& a.gate_queue@ == b.gate_queue@
    &&& a.discovered_pp_terms@ == b.discovered_pp_terms@
    &&& a.state@ == b.state@
}

/// A copy of a vector of integers.
pub(crate) fn copy_values(v: &Vec<i64>) -> (r: Vec<i64>)
    ensures
        r@ == v@,
{
    let mut r: Vec<i64> = Vec::new();
    let mut i: usize = 0;
    while i < v.len()
        invariant
            0 <= i <= v.len(),
            r@ == v@.take(i as int),
        decreases v.len() - i,
    {
        r.push(v[i]);
        proof {
            assert(r@ =~= v@.take(i + 1));
        }
        i = i + 1;
    }
    proof {
        assert(v@.take(v.len() as int) =~= v@);
    }
    r
}

/// A copy of a queue of integers.
fn copy_states(v: &VecDeque<i64>) -> (r: VecDeque<i64>)
    ensures
        r@ == v@,
{
    let mut r: VecDeque<i64> = VecDeque::new();
    let mut i: usize = 0;
    while i < v.len()
        invariant
            0 <= i <= v@.len(),
            r@ == v@.take(i as int),
        decreases v@.len() - i,
    {
        r.push_back(v[i]);
        proof {
            assert(r@ =~= v@.take(i + 1));
        }
        i = i + 1;
    }
    proof {
        assert(v@.take(v@.len() as int) =~= v@);
    }
    r
}

/// A copy of a queue of gates.
pub(crate) fn copy_gates(v: &VecDeque<RoutingGate>) -> (r: VecDeque<RoutingGate>)
    ensures
        r@ == v@,
{
    let mut r: VecDeque<RoutingGate> = VecDeque::new();
    let mut i: usize = 0;
    while i < v.len()
        invariant
            0 <= i <= v@.len(),
            r@ == v@.take(i as int),
        decreases v@.len() - i,
    {
        r.push_back(v[i]);
        proof {
            assert(r@ =~= v@.take(i + 1));
        }
        i = i + 1;
    }
    proof {
        assert(v@.take(v@.len() as int) =~= v@);
    }
    r
}

/// A copy of a set of integers.
fn copy_set(s: &HashSet<i64>) -> (r: HashSet<i64>)
    ensures
        r@ == s@,
{
    let members = crate::graph::set_members(s);
    let mut r: HashSet<i64> = HashSet::new();
    let mut i: usize = 0;
    while i < members.len()
        invariant
            0 <= i <= members.len(),
            r@ == members@.take(i as int).to_set(),
        decreases members.len() - i,
    {
        proof {
            assert(members@.take(i + 1) =~= members@.take(i as int).push(members@[i as int]));
            members@.take(i as int).lemma_push_to_set_commute(members@[i as int]);
        }
        r.insert(members[i]);
        i = i + 1;
    }
    proof {
        assert(members@.take(members.len() as int) =~= members@);
    }
    r
}

impl RoutedMultiplexer {
    /// A copy of the multiplexer, equal to it in every field.
    pub fn duplicate(&self) -> (r: Self)
        ensures
            same_state(&r, self),
    {
        RoutedMultiplexer {
            num_angles: self.num_angles,
            num_qubits: self.num_qubits,
            num_control: self.num_control,
            neighbors: self.neighbors.clone(),
            root: self.root,
            furthest_node: self.furthest_node,
            arch_to_grey_map: self.arch_to_grey_map.clone(),
            grey_to_arch_map: self.grey_to_arch_map.clone(),
            optimal_neighborhood: self.optimal_neighborhood.clone(),
            pairwise_dists: self.pairwise_dists.clone(),
            gray_code: copy_values(&self.gray_code),
            gray_gate_queue: copy_gates(&self.gray_gate_queue),
            gray_state_queue: copy_states(&self.gray_state_queue),
            arch_qubits: copy_set(&self.arch_qubits),
            gate_queue: copy_gates(&self.gate_queue),
            discovered_pp_terms: copy_set(&self.discovered_pp_terms),
            state: self.state.clone(),
            state_to_angle: self.state_to_angle.clone(),
        }
    }

    /// Reserved for substituting the multiplexer's angles into its routed
    /// gates; it changes nothing.
    pub fn replace_mapped_angles(&mut self)
        ensures
            *final(self) == *old(self),
    {
    }

    /// Reserved for recovering parity terms that routing missed; it changes nothing.
    pub fn find_missing_term(&mut self, unfound_terms: HashSet<i64>)
        ensures
            *final(self) == *old(self),
    {
    }

    /// Routes the multiplexer: starts from the first angle's rotation and the
    /// parities `2^x`, relays each Gray-code CNOT along its control's path,
    /// then resets the parities when they moved, and once more when some
    /// parity term got no rotation (see `execute_outcome`). Returns the length
    /// that `try_len` reports for the gates that are not Z rotations, which is
    /// always 0 (it reports a length only for an empty queue), and the gates
    /// emitted.
    pub fn execute_gates(&mut self) -> (res: (usize, VecDeque<RoutingGate>))
        requires
            execute_defined(old(self)),
        ensures
            routing_log(final(self)) == execute_outcome(old(self)),
            final(self).state_to_angle@ == execute_angles(old(self)),
            res.1@ == execute_outcome(old(self)).0,
            res.0 == 0,
            same_routes(final(self), old(self)),
            final(self).num_angles == old(self).num_angles,
            final(self).neighbors@ == old(self).neighbors@,
            final(self).root == old(self).root,
            final(self).furthest_node == old(self).furthest_node,
            final(self).pairwise_dists@ == old(self).pairwise_dists@,
            final(self).gray_code@ == old(self).gray_code@,
            final(self).gray_gate_queue@ == old(self).gray_gate_queue@,
            final(self).gray_state_queue@ == old(self).gray_state_queue@,
            final(self).arch_qubits@ == old(self).arch_qubits@,
    {
        let ghost m0 = *self;
        let ghost angles = execute_angles(&m0);
        let nc_pow = power_of_two(self.num_control);
        let nq_pow = power_of_two(self.num_qubits);
        let mut discovered: HashSet<i64> = HashSet::new();
        discovered.insert(nc_pow);
        self.discovered_pp_terms = discovered;
        let parities = starting_parities(self.num_qubits);
        self.state = parities;
        let n = if self.gray_state_queue.len() < self.num_angles {
            self.gray_state_queue.len()
        } else {
            self.num_angles
        };
        let mut positions: HashMap<i64, usize> = HashMap::new();
        let mut a: usize = 0;
        while a < n
            invariant
                0 <= a <= n <= self.gray_state_queue@.len(),
                positions@ == angle_positions_upto(self.gray_state_queue@, a as int),
            decreases n - a,
        {
            positions.insert(self.gray_state_queue[a], a);
            a = a + 1;
        }
        self.state_to_angle = positions;
        let init_state = self.state.clone();
        self.gate_queue.push_back(RoutingGate { name: GateName::RZ, ctrl: 0, targ: self.num_control as usize, angle: 0 });
        proof {
            assert(routing_log(self) == execute_start(&m0));
            assert(same_routes(self, &m0));
        }
        let ghost start = execute_start(&m0);
        let ghost gates = m0.gray_gate_queue@;
        let ghost m1 = *self;
        let mut k: usize = 0;
        while k < self.gray_gate_queue.len()
            invariant
                0 <= k <= self.gray_gate_queue@.len(),
                self.gray_gate_queue@ == gates,
                same_placement(self, &m1),
                same_routes(self, &m0),
                self.state_to_angle@ == angles,
                gray_defined(&m0, angles, start, gates, gates.len() as int),
                routing_log(self) == gray_run(&m0, angles, start, gates, k as int),
            decreases self.gray_gate_queue@.len() - k,
        {
            let gate = self.gray_gate_queue[k];
            proof {
                lemma_gray_defined_prefix(&m0, angles, start, gates, gates.len() as int, k + 1);
                lemma_gray_same_routes(self, &m0, angles, start, gates, k + 1);
                assert(gates[k as int] == gate);
            }
            let arch_qubit = match self.grey_to_arch_map.get(&gate.ctrl) {
                Some(q) => *q,
                None => 0,
            };
            let arch_path = match self.optimal_neighborhood.get(&arch_qubit) {
                Some(p) => p.clone(),
                None => Vec::new(),
            };
            proof {
                assert(arch_path@ =~= qubit_path(self, gate.ctrl));
            }
            let dist = arch_path.len() - 1;
            let ignore = dist <= 1;
            self.long_range_cnot(arch_path, ignore);
            k = k + 1;
        }
        proof {
            assert(routing_log(self) == execute_relayed(&m0));
        }
        if !same_parities(&init_state, &self.state) {
            proof {
                lemma_reset_same_placement(self, &m0, angles, routing_log(self), self.num_qubits as int);
            }
            self.reset_state();
        }
        proof {
            lemma_reset_same_placement(self, &m0, angles, execute_relayed(&m0), self.num_qubits as int);
            assert(routing_log(self) == execute_reset(&m0));
        }
        // The parity terms that got no rotation.
        let mut unfound: HashSet<i64> = HashSet::new();
        let mut t: i64 = nc_pow;
        let mut all_found = true;
        while t < nq_pow
            invariant
                nc_pow <= t || nq_pow <= nc_pow,
                t <= nq_pow || nq_pow <= nc_pow,
                nc_pow == vstd::arithmetic::power2::pow2(m0.num_control as nat),
                nq_pow == vstd::arithmetic::power2::pow2(m0.num_qubits as nat),
                nq_pow <= nc_pow ==> t == nc_pow,
                all_found <==> forall|u: int| nc_pow <= u < t ==> #[trigger] self.discovered_pp_terms@.contains(u as i64),
            decreases nq_pow - t,
        {
            let seen = self.discovered_pp_terms.contains(&t);
            proof {
                assert(((t as int) as i64) == t);
                assert(self.discovered_pp_terms@.contains((t as int) as i64) == seen);
            }
            if !seen {
                unfound.insert(t);
                all_found = false;
            }
            t = t + 1;
        }
        proof {
            assert(all_found == all_terms_found(self.discovered_pp_terms@, m0.num_control, m0.num_qubits));
        }
        if !all_found {
            proof {
                lemma_reset_same_placement(self, &m0, angles, routing_log(self), self.num_qubits as int);
            }
            self.reset_state();
            self.find_missing_term(unfound);
        }
        proof {
            lemma_reset_same_placement(self, &m0, angles, execute_reset(&m0), self.num_qubits as int);
            assert(routing_log(self) == execute_outcome(&m0));
        }
        let circuit_length = match non_rotation_count(&self.gate_queue) {
            Some(len) => len,
            None => 0,
        };
        (circuit_length, self.gate_queue.clone())
    }
}


} // verus!
