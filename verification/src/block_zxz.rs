//! The routing plan of a block-ZXZ synthesis: for each level of the
//! recursion, the multiplexer on the qubits that remain, with its rotation
//! qubit possibly moved closer to the cluster by a chain of swaps when that
//! makes its Gray-code sweep cheaper.
use std::collections::{HashMap, VecDeque};
use vstd::prelude::*;
use crate::graph::distance_table;
use crate::gray_code::{
    cnot_counts, gray_build, gray_build_at, gray_code_defined, gray_code_defined_at, gray_code_of, is_reordering,
    is_root_distance_list, is_root_distance_list_at, possible_cost_at, gray_code_cost,
};
use crate::graph::{adjacency, reachable};
use crate::gray_code::coded_from;
use crate::placement::{is_shortest_walk, placed_from, placement_defined, recompute_defined};
use crate::routing::{GateName, RoutedMultiplexer, RoutingGate, copy_gates, copy_values, coupling_graph, same_state};
use crate::utils::induced;

verus! {

broadcast use vstd::std_specs::hash::group_hash_axioms;

/// No two nodes share a qubit.
pub open spec fn is_injective(a2g: Map<i64, usize>) -> bool {
    forall|u: i64, v: i64| #[trigger] a2g.contains_key(u) && #[trigger] a2g.contains_key(v) && u != v ==> a2g[u] != a2g[v]
}

/// The node of each qubit of the placement `a2g`.
pub open spec fn inverse_placement(a2g: Map<i64, usize>) -> Map<usize, i64> {
    Map::new(
        |q: usize| exists|v: i64| #[trigger] a2g.contains_key(v) && a2g[v] == q,
        |q: usize| choose|v: i64| #[trigger] a2g.contains_key(v) && a2g[v] == q,
    )
}

/// The map built by inserting `(a[i], b[i])` for `i` from 0 below `n`, a later
/// pair overriding an earlier one with the same key.
pub open spec fn zip_map(a: Seq<usize>, b: Seq<usize>, n: int) -> Map<usize, usize>
    decreases n,
{
    if n <= 0 {
        Map::empty()
    } else {
        zip_map(a, b, n - 1).insert(a[n - 1], b[n - 1])
    }
}

/// `s` lists the qubits of `m` in some order: every value of `m` occurs, and
/// there are as many entries as `m` has keys.
pub open spec fn lists_values(s: Seq<usize>, m: Map<i64, usize>) -> bool {
    &&& s.to_set() == m.values()
    &&& s.len() == m.dom().len()
}

/// `z` pairs the qubits of `a` with those of `b`, each listed in the order in
/// which its map hands them out.
pub open spec fn is_value_zip(z: Map<usize, usize>, a: Map<i64, usize>, b: Map<i64, usize>) -> bool {
    exists|sa: Seq<usize>, sb: Seq<usize>|
        #![trigger lists_values(sa, a), lists_values(sb, b)]
        lists_values(sa, a) && lists_values(sb, b) && z == zip_map(
            sa,
            sb,
            if sa.len() < sb.len() {
                sa.len() as int
            } else {
                sb.len() as int
            },
        )
}

/// The qubits of `m`, in the order in which the map hands them out.
fn map_values_list(m: &HashMap<i64, usize>) -> (r: Vec<usize>)
    ensures
        lists_values(r@, m@),
{
    let mut r: Vec<usize> = Vec::new();
    let ghost all = vstd::std_specs::iter::IteratorSpec::remaining(&m.values()).unref();
    for x in it: m.values()
        invariant
            it.seq().unref() == all,
            r@ == all.take(it.index() as int),
    {
        proof {
            assert(*x == all[it.index() as int]);
        }
        r.push(*x);
    }
    proof {
        assert(r@ =~= all);
    }
    r
}

/// Pairs the qubits of `a` with those of `b`, each in its map's own order.
fn zip_values(a: &HashMap<i64, usize>, b: &HashMap<i64, usize>) -> (z: HashMap<usize, usize>)
    ensures
        is_value_zip(z@, a@, b@),
{
    let va = map_values_list(a);
    let vb = map_values_list(b);
    let n = if va.len() < vb.len() {
        va.len()
    } else {
        vb.len()
    };
    let mut z: HashMap<usize, usize> = HashMap::new();
    let mut i: usize = 0;
    while i < n
        invariant
            0 <= i <= n,
            n <= va.len(),
            n <= vb.len(),
            z@ == zip_map(va@, vb@, i as int),
        decreases n - i,
    {
        z.insert(va[i], vb[i]);
        i = i + 1;
    }
    proof {
        assert(lists_values(va@, a@) && lists_values(vb@, b@));
    }
    z
}

/// The qubit-to-node map of an injective placement.
fn inverse_of(a2g: &HashMap<i64, usize>) -> (g2a: HashMap<usize, i64>)
    requires
        is_injective(a2g@),
    ensures
        g2a@ == inverse_placement(a2g@),
{
    let nodes = crate::graph::map_keys(a2g);
    let mut g2a: HashMap<usize, i64> = HashMap::new();
    let mut i: usize = 0;
    while i < nodes.len()
        invariant
            0 <= i <= nodes.len(),
            nodes@.to_set() == a2g@.dom(),
            nodes@.no_duplicates(),
            is_injective(a2g@),
            forall|q: usize| #[trigger] g2a@.contains_key(q) <==> exists|t: int| 0 <= t < i && a2g@[nodes@[t]] == q,
            forall|t: int| 0 <= t < i ==> #[trigger] g2a@[a2g@[nodes@[t]]] == nodes@[t],
        decreases nodes.len() - i,
    {
        let v = nodes[i];
        assert(nodes@.to_set().contains(v));
        let q = match a2g.get(&v) {
            Some(x) => *x,
            None => 0,
        };
        g2a.insert(q, v);
        proof {
            assert forall|t: int| 0 <= t < i + 1 implies #[trigger] g2a@[a2g@[nodes@[t]]] == nodes@[t] by {
                if t < i {
                    assert(nodes@.to_set().contains(nodes@[t]));
                    assert(nodes@[t] != v);
                    assert(a2g@[nodes@[t]] != a2g@[v]);
                }
            }
            assert forall|x: usize| #[trigger] g2a@.contains_key(x) <==> exists|t: int| 0 <= t < i + 1 && a2g@[nodes@[t]] == x by {
                if x == q {
                    assert(a2g@[nodes@[i as int]] == x);
                }
            }
        }
        i = i + 1;
    }
    proof {
        let inv = inverse_placement(a2g@);
        assert forall|x: usize| g2a@.contains_key(x) <==> inv.contains_key(x) by {
            if g2a@.contains_key(x) {
                let t = choose|t: int| 0 <= t < nodes@.len() && a2g@[nodes@[t]] == x;
                assert(nodes@.to_set().contains(nodes@[t]));
                assert(a2g@.contains_key(nodes@[t]) && a2g@[nodes@[t]] == x);
            }
            if inv.contains_key(x) {
                let v = choose|v: i64| #[trigger] a2g@.contains_key(v) && a2g@[v] == x;
                assert(nodes@.to_set().contains(v));
                let t = choose|t: int| 0 <= t < nodes@.len() && nodes@[t] == v;
                assert(a2g@[nodes@[t]] == x);
            }
        }
        assert forall|x: usize| g2a@.contains_key(x) implies g2a@[x] == inv[x] by {
            let t = choose|t: int| 0 <= t < nodes@.len() && a2g@[nodes@[t]] == x;
            assert(nodes@.to_set().contains(nodes@[t]));
            let v = choose|v: i64| #[trigger] a2g@.contains_key(v) && a2g@[v] == x;
            assert(g2a@[a2g@[nodes@[t]]] == nodes@[t]);
            if v != nodes@[t] {
                assert(a2g@[v] != a2g@[nodes@[t]]);
            }
        }
        assert(g2a@ =~= inv);
    }
    g2a
}

/// A SWAP of qubits `a` and `b`.
pub open spec fn swap_gate(a: usize, b: usize) -> RoutingGate {
    RoutingGate { name: GateName::SWAP, ctrl: a, targ: b, angle: 0 }
}

/// The SWAPs that move a qubit along `path` under the placement `a2g`: one
/// per edge, from the first edge on, or from the last when `reverse`.
pub open spec fn swap_chain(a2g: Map<i64, usize>, path: Seq<i64>, reverse: bool) -> Seq<RoutingGate> {
    Seq::new(
        (path.len() - 1) as nat,
        |k: int|
            {
                let i = if reverse {
                    path.len() - 2 - k
                } else {
                    k
                };
                swap_gate(a2g[path[i]], a2g[path[i + 1]])
            },
    )
}

/// The routing plan of a block-ZXZ synthesis over a coupling map.
pub struct BlockZXZ {
    pub coupling_map: Vec<[i64; 2]>,
    pub gate_queue: VecDeque<RoutingGate>,
    pub original_multiplexer: RoutedMultiplexer,
    pub routed_multiplexers: HashMap<i64, RoutedMultiplexer>,
    pub swaps_per_level: HashMap<i64, Option<Vec<i64>>>,
    pub swap_maps: HashMap<i64, Option<HashMap<usize, usize>>>,
}

impl BlockZXZ {
    /// An empty plan over `coupling_map`: no gates, and an empty multiplexer
    /// on no qubits.
    pub fn new(coupling_map: Vec<[i64; 2]>) -> (r: Self)
        ensures
            r.coupling_map@ == coupling_map@,
            r.gate_queue@ == Seq::<RoutingGate>::empty(),
            is_fresh(&r.original_multiplexer, Seq::<[i64; 2]>::empty(), 0),
            r.routed_multiplexers@ == Map::<i64, RoutedMultiplexer>::empty(),
            r.swaps_per_level@ == Map::<i64, Option<Vec<i64>>>::empty(),
            r.swap_maps@ == Map::<i64, Option<HashMap<usize, usize>>>::empty(),
    {
        let original_multiplexer = RoutedMultiplexer::new(Vec::new(), 0);
        BlockZXZ {
            coupling_map,
            gate_queue: VecDeque::new(),
            original_multiplexer,
            routed_multiplexers: HashMap::new(),
            swaps_per_level: HashMap::new(),
            swap_maps: HashMap::new(),
        }
    }

    /// Appends the SWAPs that carry a qubit along `path`, edge by edge, from
    /// the first edge or, when `reverse`, from the last; the qubits are those
    /// of the first placement.
    pub fn swap_to(&mut self, path: Vec<i64>, reverse: bool)
        requires
            path.len() >= 1,
            forall|i: int| 0 <= i < path.len() ==> old(self).original_multiplexer.arch_to_grey_map@.contains_key(#[trigger] path@[i]),
        ensures
            final(self).gate_queue@ == old(self).gate_queue@ + swap_chain(
                old(self).original_multiplexer.arch_to_grey_map@,
                path@,
                reverse,
            ),
            final(self).coupling_map@ == old(self).coupling_map@,
            final(self).original_multiplexer == old(self).original_multiplexer,
            final(self).routed_multiplexers@ == old(self).routed_multiplexers@,
            final(self).swaps_per_level@ == old(self).swaps_per_level@,
            final(self).swap_maps@ == old(self).swap_maps@,
    {
        let ghost q0 = self.gate_queue@;
        let ghost a2g = self.original_multiplexer.arch_to_grey_map@;
        let n = path.len() - 1;
        let mut k: usize = 0;
        while k < n
            invariant
                0 <= k <= n,
                n == path.len() - 1,
                a2g == self.original_multiplexer.arch_to_grey_map@,
                forall|i: int| 0 <= i < path.len() ==> a2g.contains_key(#[trigger] path@[i]),
                self.gate_queue@ == q0 + swap_chain(a2g, path@, reverse).take(k as int),
                self.coupling_map@ == old(self).coupling_map@,
                self.original_multiplexer == old(self).original_multiplexer,
                self.routed_multiplexers@ == old(self).routed_multiplexers@,
                self.swaps_per_level@ == old(self).swaps_per_level@,
                self.swap_maps@ == old(self).swap_maps@,
            decreases n - k,
        {
            let i = if reverse {
                n - 1 - k
            } else {
                k
            };
            let q_1 = match self.original_multiplexer.arch_to_grey_map.get(&path[i]) {
                Some(x) => *x,
                None => 0,
            };
            let q_2 = match self.original_multiplexer.arch_to_grey_map.get(&path[i + 1]) {
                Some(x) => *x,
                None => 0,
            };
            self.gate_queue.push_back(RoutingGate { name: GateName::SWAP, ctrl: q_1, targ: q_2, angle: 0 });
            proof {
                assert(swap_chain(a2g, path@, reverse)[k as int] == swap_gate(q_1, q_2));
                assert(self.gate_queue@ =~= q0 + swap_chain(a2g, path@, reverse).take(k + 1));
            }
            k = k + 1;
        }
        proof {
            assert(swap_chain(a2g, path@, reverse).take(n as int) =~= swap_chain(a2g, path@, reverse));
        }
    }
}

/// The placement after `k` swaps along `p` from its end: swap `t` exchanges
/// the qubits of `p[len - t]` and `p[len - t - 1]`.
pub open spec fn swap_along(a2g: Map<i64, usize>, p: Seq<i64>, k: int) -> Map<i64, usize>
    decreases k,
{
    if k <= 0 {
        a2g
    } else {
        let prev = swap_along(a2g, p, k - 1);
        let j = p.len() - k;
        prev.insert(p[j], prev[p[j - 1]]).insert(p[j - 1], prev[p[j]])
    }
}

/// The root after `k` swaps along `p`: the node the last swap moved the
/// rotation qubit into.
pub open spec fn swap_root(root: i64, p: Seq<i64>, k: int) -> i64 {
    if k <= 0 {
        root
    } else {
        p[p.len() - k - 1]
    }
}

/// The path of `target` in `m`.
pub open spec fn target_path(m: &RoutedMultiplexer, target: i64) -> Seq<i64> {
    m.optimal_neighborhood@[target]@
}

/// How many placements are weighed for the path `p`: no swap, and one more
/// for each edge.
pub open spec fn candidate_count(p: Seq<i64>) -> int {
    if p.len() >= 1 {
        p.len() as int
    } else {
        1
    }
}

/// `c` is a cost that candidate `k` (after `k` swaps along `p`) may come to:
/// its Gray-code sweep plus six CNOTs per swap.
pub open spec fn candidate_cost(m: &RoutedMultiplexer, p: Seq<i64>, k: int, c: int) -> bool {
    let a = swap_along(m.arch_to_grey_map@, p, k);
    let r = swap_root(m.root, p, k);
    possible_cost_at(m.num_qubits, a, r, distance_table(&m.pairwise_dists)[r], c - 6 * k)
}

/// Candidate `k` can be costed, and its cost with the swaps fits in `i64`.
pub open spec fn candidate_ok(m: &RoutedMultiplexer, p: Seq<i64>, k: int) -> bool {
    let a = swap_along(m.arch_to_grey_map@, p, k);
    let r = swap_root(m.root, p, k);
    let dists = distance_table(&m.pairwise_dists);
    &&& gray_code_defined_at(m.num_qubits, m.num_control, a, r, dists)
    &&& forall|c: int| #[trigger] possible_cost_at(m.num_qubits, a, r, dists[r], c) ==> c + 6 * k <= i64::MAX
}

/// The swap search can run on `m` for the qubit placed on `target`.
pub open spec fn swap_plan_defined(m: &RoutedMultiplexer, target: i64) -> bool {
    let p = target_path(m, target);
    let a = m.arch_to_grey_map@;
    &&& m.optimal_neighborhood@.contains_key(target)
    &&& p.len() < 0x1_0000_0000
    &&& is_injective(a)
    &&& (exists|t: int| 0 <= t < p.len() && !a.contains_key(#[trigger] p[t])) ==> recompute_defined(m)
    &&& p.len() >= 2 ==> forall|t: int| 0 <= t < p.len() ==> a.contains_key(#[trigger] p[t])
    &&& forall|k: int| 0 <= k < candidate_count(p) ==> #[trigger] candidate_ok(m, p, k)
}

/// `costs` are costs the candidates may come to, and `s` is the first of
/// least cost.
pub open spec fn chosen_swaps(m: &RoutedMultiplexer, p: Seq<i64>, costs: Seq<int>, s: int) -> bool {
    &&& costs.len() == candidate_count(p)
    &&& 0 <= s < costs.len()
    &&& forall|k: int| 0 <= k < costs.len() ==> #[trigger] candidate_cost(m, p, k, costs[k])
    &&& forall|k: int| 0 <= k < costs.len() ==> costs[s] <= #[trigger] costs[k]
    &&& forall|k: int| 0 <= k < s ==> costs[s] < #[trigger] costs[k]
}

/// `a` and `b` agree on every field but the placement, the root and the Gray code.
pub open spec fn same_but_placement(a: &RoutedMultiplexer, b: &RoutedMultiplexer) -> bool {
    &&& a.num_angles == b.num_angles
    &&& a.num_qubits == b.num_qubits
    &&& a.num_control == b.num_control
    &&& a.neighbors@ == b.neighbors@
    &&& a.furthest_node == b.furthest_node
    &&& a.optimal_neighborhood@ == b.optimal_neighborhood@
    &&& a.pairwise_dists@ == b.pairwise_dists@
    &&& a.arch_qubits@ == b.arch_qubits@
    &&& a.gate_queue@ == b.gate_queue@
    &&& a.discovered_pp_terms@ == b.discovered_pp_terms@
    &&& a.state@ == b.state@
    &&& a.state_to_angle@ == b.state_to_angle@
}

/// `best` is `m` after `k` swaps along `p` with its Gray-code sweep built
/// once more, for a list of distances `dl` whose cost is `c` without the swaps.
pub open spec fn swept_candidate(m: &RoutedMultiplexer, p: Seq<i64>, k: int, c: int, best: &RoutedMultiplexer) -> bool {
    let a = swap_along(m.arch_to_grey_map@, p, k);
    let r = swap_root(m.root, p, k);
    let dists = distance_table(&m.pairwise_dists);
    let codes = vstd::arithmetic::power2::pow2(m.num_control as nat) as int;
    &&& same_but_placement(best, m)
    &&& best.arch_to_grey_map@ == a
    &&& best.grey_to_arch_map@ == inverse_placement(a)
    &&& best.root == r
    &&& exists|dl: Seq<(i64, i64)>, counts: Seq<i64>|
        #![trigger is_root_distance_list_at(a, r, dists[r], dl), is_reordering(counts, cnot_counts(m.num_qubits))]
        {
            &&& is_root_distance_list_at(a, r, dists[r], dl)
            &&& is_reordering(counts, cnot_counts(m.num_qubits))
            &&& c == gray_code_cost(dl, counts)
            &&& best.gray_gate_queue@ == m.gray_gate_queue@ + gray_build_at(m.num_qubits, m.num_control, a, r, dl, codes).0
            &&& best.gray_state_queue@ == m.gray_state_queue@ + gray_build_at(m.num_qubits, m.num_control, a, r, dl, codes).1
        }
    &&& best.gray_code@ == gray_code_of(best.gray_state_queue@, m.num_control)
}

/// The multiplexer kept for candidate `s`: `m` itself when no swap wins,
/// otherwise the swept candidate.
pub open spec fn kept_candidate(m: &RoutedMultiplexer, p: Seq<i64>, s: int, costs: Seq<int>, best: &RoutedMultiplexer) -> bool {
    &&& s == 0 ==> same_state(best, m)
    &&& s > 0 ==> swept_candidate(m, p, s, costs[s] - 6 * s, best)
}

/// Swapping qubits along a path whose nodes are all placed keeps every node
/// placed, and keeps a placement in which no two nodes share a qubit so.
pub proof fn lemma_swap_along_keys(a2g: Map<i64, usize>, p: Seq<i64>, k: int)
    requires
        0 <= k < p.len(),
        forall|t: int| 0 <= t < p.len() ==> a2g.contains_key(#[trigger] p[t]),
    ensures
        swap_along(a2g, p, k).dom() == a2g.dom(),
        is_injective(a2g) ==> is_injective(swap_along(a2g, p, k)),
    decreases k,
{
    if k > 0 {
        lemma_swap_along_keys(a2g, p, k - 1);
        let prev = swap_along(a2g, p, k - 1);
        let j = p.len() - k;
        assert(prev.contains_key(p[j]) && prev.contains_key(p[j - 1]));
        assert(swap_along(a2g, p, k).dom() =~= a2g.dom());
        if is_injective(a2g) {
            let nxt = swap_along(a2g, p, k);
            assert forall|u: i64, v: i64| #[trigger] nxt.contains_key(u) && #[trigger] nxt.contains_key(v) && u != v implies nxt[u] != nxt[v] by {
                assert(prev.contains_key(u) && prev.contains_key(v));
                if p[j] != p[j - 1] {
                    if u != p[j] && u != p[j - 1] && v != p[j] && v != p[j - 1] {
                    } else {
                        assert(prev[p[j]] != prev[p[j - 1]]);
                        if u != p[j] && u != p[j - 1] {
                            assert(prev[u] != prev[p[j]] && prev[u] != prev[p[j - 1]]);
                        }
                        if v != p[j] && v != p[j - 1] {
                            assert(prev[v] != prev[p[j]] && prev[v] != prev[p[j - 1]]);
                        }
                    }
                }
            }
        }
    }
}

/// Weighs moving the qubit on `target` along its path towards the cluster's
/// first node: candidate 0 keeps the placement, candidate `k` swaps the
/// qubits of the last `k` edges in turn, ending with its root on the node the
/// rotation qubit moved into. Each is costed by its Gray-code sweep plus six
/// CNOTs per swap, and the first of least cost is kept. Returns that cost, its
/// placement, its number of swaps and its multiplexer.
fn best_swap_plan(m: &RoutedMultiplexer, target: i64) -> (res: (i64, HashMap<i64, usize>, i64, RoutedMultiplexer))
    requires
        swap_plan_defined(m, target),
    ensures
        exists|s: int, costs: Seq<int>|
            #[trigger] chosen_swaps(m, target_path(m, target), costs, s) && {
                &&& res.0 == costs[s]
                &&& res.1@ == swap_along(m.arch_to_grey_map@, target_path(m, target), s)
                &&& res.2 == s
                &&& kept_candidate(m, target_path(m, target), s, costs, &res.3)
            },
{
    let ghost p = target_path(m, target);
    let ghost a0 = m.arch_to_grey_map@;
    let ghost dists = distance_table(&m.pairwise_dists);
    let path_to_root = match m.optimal_neighborhood.get(&target) {
        Some(path) => copy_values(path),
        None => Vec::new(),
    };
    assert(path_to_root@ == p);
    proof {
        assert(candidate_ok(m, p, 0));
    }
    let mut probe = m.duplicate();
    let best0 = probe.get_optimal_gray_code();
    proof {
        let r = m.root;
        assert(distance_table(&m.pairwise_dists)[r] == m.pairwise_dists@[r]@);
        let (dl, counts) = choose|dl: Seq<(i64, i64)>, counts: Seq<i64>|
            #![trigger gray_code_cost(dl, counts)]
            {
                &&& is_root_distance_list(&probe, dl)
                &&& is_reordering(counts, cnot_counts(probe.num_qubits))
                &&& best0 == gray_code_cost(dl, counts)
            };
        assert(is_root_distance_list_at(a0, r, dists[r], dl));
        assert(possible_cost_at(m.num_qubits, a0, r, dists[r], best0 as int));
        assert(candidate_cost(m, p, 0, best0 as int));
    }
    let mut best_cost = best0;
    let mut best_arch_to_grey = m.arch_to_grey_map.clone();
    let mut best_swap_count: i64 = 0;
    let mut best_multiplexer = m.duplicate();
    let mut arch_to_grey_copy = m.arch_to_grey_map.clone();
    // A node of the path without a qubit sends the search through a fresh
    // computation of the paths, on a copy that is then dropped.
    let mut t: usize = 0;
    while t < path_to_root.len()
        invariant
            0 <= t <= path_to_root.len(),
            path_to_root@ == p,
            arch_to_grey_copy@ == a0,
            a0 == m.arch_to_grey_map@,
            swap_plan_defined(m, target),
            p == target_path(m, target),
        decreases path_to_root.len() - t,
    {
        let node = path_to_root[t];
        if !arch_to_grey_copy.contains_key(&node) {
            proof {
                assert(!a0.contains_key(p[t as int]));
            }
            let mut fresh = m.duplicate();
            fresh.recompute_optimal_neighborhood();
        }
        t = t + 1;
    }
    let ghost mut costs: Seq<int> = seq![best0 as int];
    let len = path_to_root.len();
    let mut swap_count: i64 = 0;
    let mut j: usize = len;
    while j > 1
        invariant
            1 <= j <= len || (j == len && len <= 1),
            len == p.len(),
            path_to_root@ == p,
            a0 == m.arch_to_grey_map@,
            dists == distance_table(&m.pairwise_dists),
            swap_plan_defined(m, target),
            p == target_path(m, target),
            swap_count == len - j,
            arch_to_grey_copy@ == swap_along(a0, p, swap_count as int),
            costs.len() == swap_count + 1,
            0 <= best_swap_count <= swap_count,
            best_cost == costs[best_swap_count as int],
            best_arch_to_grey@ == swap_along(a0, p, best_swap_count as int),
            forall|k: int| 0 <= k < costs.len() ==> #[trigger] candidate_cost(m, p, k, costs[k]),
            forall|k: int| 0 <= k < costs.len() ==> costs[best_swap_count as int] <= #[trigger] costs[k],
            forall|k: int| 0 <= k < best_swap_count ==> costs[best_swap_count as int] < #[trigger] costs[k],
            kept_candidate(m, p, best_swap_count as int, costs, &best_multiplexer),
        decreases j,
    {
        let jj = j - 1;
        let k = swap_count + 1;
        proof {
            assert(p.len() >= 2);
            assert(forall|t: int| 0 <= t < p.len() ==> a0.contains_key(#[trigger] p[t]));
            lemma_swap_along_keys(a0, p, swap_count as int);
            lemma_swap_along_keys(a0, p, k as int);
            assert(p.len() - k == jj);
            assert(candidate_ok(m, p, k as int));
        }
        let mut multiplexer_cp = m.duplicate();
        let temp = match arch_to_grey_copy.get(&path_to_root[jj]) {
            Some(x) => *x,
            None => 0,
        };
        let other = match arch_to_grey_copy.get(&path_to_root[jj - 1]) {
            Some(x) => *x,
            None => 0,
        };
        arch_to_grey_copy.insert(path_to_root[jj], other);
        arch_to_grey_copy.insert(path_to_root[jj - 1], temp);
        proof {
            assert(arch_to_grey_copy@ =~= swap_along(a0, p, k as int));
        }
        multiplexer_cp.arch_to_grey_map = arch_to_grey_copy.clone();
        multiplexer_cp.grey_to_arch_map = inverse_of(&arch_to_grey_copy);
        multiplexer_cp.root = path_to_root[jj - 1];
        swap_count = swap_count + 1;
        let ghost cp0 = multiplexer_cp;
        let swept = multiplexer_cp.get_optimal_gray_code();
        let ghost r = swap_root(m.root, p, k as int);
        let ghost a = swap_along(a0, p, k as int);
        proof {
            assert(cp0.root == r);
            assert(distance_table(&m.pairwise_dists)[r] == m.pairwise_dists@[r]@);
            let (dl, counts) = choose|dl: Seq<(i64, i64)>, counts: Seq<i64>|
                #![trigger gray_code_cost(dl, counts)]
                {
                    &&& is_root_distance_list(&cp0, dl)
                    &&& is_reordering(counts, cnot_counts(cp0.num_qubits))
                    &&& swept == gray_code_cost(dl, counts)
                    &&& multiplexer_cp.gray_gate_queue@ == cp0.gray_gate_queue@ + gray_build(
                        &cp0,
                        dl,
                        vstd::arithmetic::power2::pow2(cp0.num_control as nat) as int,
                    ).0
                    &&& multiplexer_cp.gray_state_queue@ == cp0.gray_state_queue@ + gray_build(
                        &cp0,
                        dl,
                        vstd::arithmetic::power2::pow2(cp0.num_control as nat) as int,
                    ).1
                };
            assert(is_root_distance_list_at(a, r, dists[r], dl));
            assert(possible_cost_at(m.num_qubits, a, r, dists[r], swept as int));
            assert(swept + 6 * k <= i64::MAX);
            assert(swept_candidate(m, p, k as int, swept as int, &multiplexer_cp));
        }
        let current_cost = swept + swap_count * 3 * 2;
        proof {
            assert(candidate_cost(m, p, k as int, current_cost as int));
            costs = costs.push(current_cost as int);
        }
        if current_cost < best_cost {
            best_cost = current_cost;
            best_arch_to_grey = arch_to_grey_copy.clone();
            best_swap_count = swap_count;
            best_multiplexer = multiplexer_cp.duplicate();
        }
        j = jj;
    }
    proof {
        assert(costs.len() == candidate_count(p));
        assert(chosen_swaps(m, p, costs, best_swap_count as int));
    }
    (best_cost, best_arch_to_grey, best_swap_count, best_multiplexer)
}

/// The nodes of the qubits from `nq - l` up to `nq` under the placement of `first`.
pub open spec fn removed_nodes(first: &RoutedMultiplexer, l: int) -> Set<i64> {
    Set::new(
        |v: i64|
            exists|q: usize|
                first.num_qubits - l <= q < first.num_qubits && #[trigger] first.grey_to_arch_map@.contains_key(q)
                    && first.grey_to_arch_map@[q] == v,
    )
}

/// `b` is the multiplexer of level `l`: `first` without its top `l` qubits and
/// their nodes, its root the node of the new top qubit.
pub open spec fn is_level_base(b: &RoutedMultiplexer, first: &RoutedMultiplexer, l: int) -> bool {
    let gone = removed_nodes(first, l);
    &&& b.num_qubits == first.num_qubits - l
    &&& b.num_control == first.num_control - l
    &&& b.arch_to_grey_map@ == first.arch_to_grey_map@.remove_keys(gone)
    &&& b.grey_to_arch_map@ == first.grey_to_arch_map@.remove_keys(
        Set::new(|q: usize| first.num_qubits - l <= q < first.num_qubits),
    )
    &&& b.arch_qubits@ == first.arch_qubits@.difference(gone)
    &&& b.optimal_neighborhood@ == first.optimal_neighborhood@.remove_keys(gone)
    &&& b.root == if l == 0 {
        first.root
    } else {
        first.grey_to_arch_map@[(first.num_qubits - 1 - l) as usize]
    }
    &&& b.num_angles == first.num_angles
    &&& b.neighbors@ == first.neighbors@
    &&& b.furthest_node == first.furthest_node
    &&& b.pairwise_dists@ == first.pairwise_dists@
    &&& b.gray_code@ == first.gray_code@
    &&& b.gray_gate_queue@ == first.gray_gate_queue@
    &&& b.gray_state_queue@ == first.gray_state_queue@
    &&& b.gate_queue@ == first.gate_queue@
    &&& b.discovered_pp_terms@ == first.discovered_pp_terms@
    &&& b.state@ == first.state@
    &&& b.state_to_angle@ == first.state_to_angle@
}

/// The node of the top qubit of `b`.
pub open spec fn top_node(b: &RoutedMultiplexer) -> i64 {
    b.grey_to_arch_map@[(b.num_qubits - 1) as usize]
}

/// After candidate `k` of level `b` is kept, the placement names the nodes of
/// the top qubit and of qubit 0, and every node with a path can be reached
/// from the top qubit's node inside the placed nodes.
pub open spec fn finish_ok(b: &RoutedMultiplexer, p: Seq<i64>, k: int) -> bool {
    let g = inverse_placement(swap_along(b.arch_to_grey_map@, p, k));
    let top = (b.num_qubits - 1) as usize;
    &&& g.contains_key(top)
    &&& g.contains_key(0)
    &&& forall|v: i64| #[trigger] b.optimal_neighborhood@.contains_key(v)
        ==> reachable(induced(adjacency(&b.neighbors), b.arch_qubits@), g[top], v)
}

/// Level `b` can be planned.
pub open spec fn level_defined(b: &RoutedMultiplexer) -> bool {
    let p = target_path(b, top_node(b));
    &&& b.grey_to_arch_map@.contains_key((b.num_qubits - 1) as usize)
    &&& b.grey_to_arch_map@.contains_key((b.num_qubits - 2) as usize)
    &&& b.neighbors@.len() < u32::MAX
    &&& swap_plan_defined(b, top_node(b))
    &&& forall|k: int| 0 <= k < candidate_count(p) ==> #[trigger] finish_ok(b, p, k)
}

/// Every level below `first` can be planned.
pub open spec fn levels_defined(first: &RoutedMultiplexer) -> bool {
    forall|b: RoutedMultiplexer, l: int|
        #[trigger] is_level_base(&b, first, l) && 0 <= l < first.num_qubits - 2 ==> level_defined(&b)
}

/// What is stored for level `b`: with `s` the swaps kept, the routed
/// multiplexer takes the kept candidate's placement and Gray code, the nodes
/// of the top qubit and of qubit 0 under it as root and furthest node, and a
/// shortest path from the root inside the placed nodes for every node with a
/// path; when `s > 0` the swapped nodes are the end of the path from its last
/// `s + 1` nodes, and the swap map pairs the kept placement's qubits with
/// those of `first_a2g`.
pub open spec fn level_result(
    b: &RoutedMultiplexer,
    first_a2g: Map<i64, usize>,
    routed: &RoutedMultiplexer,
    swaps: Option<Vec<i64>>,
    smap: Option<HashMap<usize, usize>>,
) -> bool {
    let p = target_path(b, top_node(b));
    let top = (b.num_qubits - 1) as usize;
    exists|s: int, costs: Seq<int>, best: RoutedMultiplexer|
        #[trigger] chosen_swaps(b, p, costs, s) && #[trigger] kept_candidate(b, p, s, costs, &best) && {
            let a = swap_along(b.arch_to_grey_map@, p, s);
            let g = inverse_placement(a);
            &&& routed.arch_to_grey_map@ == a
            &&& routed.grey_to_arch_map@ == g
            &&& g.contains_key(top)
            &&& g.contains_key(0)
            &&& routed.root == g[top]
            &&& routed.furthest_node == g[0]
            &&& routed.optimal_neighborhood@.dom() == b.optimal_neighborhood@.dom()
            &&& forall|v: i64| #[trigger] routed.optimal_neighborhood@.contains_key(v) ==> is_shortest_walk(
                induced(adjacency(&b.neighbors), b.arch_qubits@),
                routed.optimal_neighborhood@[v]@,
                g[top],
                v,
            )
            &&& routed.num_angles == b.num_angles
            &&& routed.num_qubits == b.num_qubits
            &&& routed.num_control == b.num_control
            &&& routed.neighbors@ == b.neighbors@
            &&& routed.pairwise_dists@ == b.pairwise_dists@
            &&& routed.arch_qubits@ == b.arch_qubits@
            &&& routed.gate_queue@ == b.gate_queue@
            &&& routed.discovered_pp_terms@ == b.discovered_pp_terms@
            &&& routed.state@ == b.state@
            &&& routed.state_to_angle@ == b.state_to_angle@
            &&& routed.gray_code@ == best.gray_code@
            &&& routed.gray_gate_queue@ == best.gray_gate_queue@
            &&& routed.gray_state_queue@ == best.gray_state_queue@
            &&& s == 0 ==> swaps is None && smap is None
            &&& s > 0 ==> (swaps matches Some(v) && v@ == p.subrange(p.len() - 1 - s, p.len() as int))
            &&& s > 0 ==> (smap matches Some(z) && is_value_zip(z@, a, first_a2g))
        }
}

/// Level `l` below `first` is stored in the three maps.
pub open spec fn level_stored(
    first: &RoutedMultiplexer,
    l: int,
    routed: Map<i64, RoutedMultiplexer>,
    swaps: Map<i64, Option<Vec<i64>>>,
    smaps: Map<i64, Option<HashMap<usize, usize>>>,
) -> bool {
    &&& routed.contains_key(l as i64)
    &&& swaps.contains_key(l as i64)
    &&& smaps.contains_key(l as i64)
    &&& exists|b: RoutedMultiplexer|
        #[trigger] is_level_base(&b, first, l) && level_result(&b, first.arch_to_grey_map@, &routed[l as i64], swaps[l as i64], smaps[l as i64])
}

/// `m` is a new multiplexer on `nq` qubits over the coupling map `cm`.
pub open spec fn is_fresh(m: &RoutedMultiplexer, cm: Seq<[i64; 2]>, nq: i64) -> bool {
    &&& adjacency(&m.neighbors) == coupling_graph(cm)
    &&& m.num_angles == 0
    &&& m.num_qubits == nq
    &&& m.num_control == nq - 1
    &&& m.root == 0
    &&& m.furthest_node == 0
    &&& m.arch_to_grey_map@ == Map::<i64, usize>::empty()
    &&& m.grey_to_arch_map@ == Map::<usize, i64>::empty()
    &&& m.optimal_neighborhood@ == Map::<i64, Vec<i64>>::empty()
    &&& m.pairwise_dists@ == Map::<i64, HashMap<i64, i64>>::empty()
    &&& m.gray_code@ == Seq::<i64>::empty()
    &&& m.gray_gate_queue@ == Seq::<RoutingGate>::empty()
    &&& m.gray_state_queue@ == Seq::<i64>::empty()
    &&& m.arch_qubits@ == Set::<i64>::empty()
    &&& m.gate_queue@ == Seq::<RoutingGate>::empty()
    &&& m.discovered_pp_terms@ == Set::<i64>::empty()
    &&& m.state@ == Map::<i64, i64>::empty()
    &&& m.state_to_angle@ == Map::<i64, usize>::empty()
}

/// `p` is a new multiplexer on `nq` qubits over `cm` with its qubits placed.
pub open spec fn is_placed(p: &RoutedMultiplexer, cm: Seq<[i64; 2]>, nq: i64) -> bool {
    exists|m: RoutedMultiplexer| #[trigger] is_fresh(&m, cm, nq) && placed_from(&m, p)
}

/// `o` is a placed multiplexer on `nq` qubits over `cm` with its Gray-code
/// sweep built.
pub open spec fn is_first_level(o: &RoutedMultiplexer, cm: Seq<[i64; 2]>, nq: i64) -> bool {
    exists|p: RoutedMultiplexer, c: int| #[trigger] is_placed(&p, cm, nq) && #[trigger] coded_from(&p, o, c)
}

/// `initialize_multiplexers` can run on `num_qubits` qubits over `cm`:
/// placing, sweeping and planning every level can run whatever the cluster
/// search, the path searches and the sweeps return.
pub open spec fn plan_defined(cm: Seq<[i64; 2]>, nq: i64) -> bool {
    &&& nq > i64::MIN
    &&& forall|m: RoutedMultiplexer| #[trigger] is_fresh(&m, cm, nq) ==> placement_defined(&m)
    &&& forall|p: RoutedMultiplexer| #[trigger] is_placed(&p, cm, nq) ==> gray_code_defined(&p)
    &&& forall|o: RoutedMultiplexer| #[trigger] is_first_level(&o, cm, nq) ==> levels_defined(&o)
}

/// A copy of a list of edges.
fn copy_edges(v: &Vec<[i64; 2]>) -> (r: Vec<[i64; 2]>)
    ensures
        r@ == v@,
{
    let mut r: Vec<[i64; 2]> = Vec::new();
    let mut i: usize = 0;
    while i < v.len()
        invariant
            0 <= i <= v.len(),
            r@ == v@.take(i as int),
        decreases v.len() - i,
    {
        r.push(v[i]);
        proof {
            assert(r@ =~= v@.take(i + 1));
        }
        i = i + 1;
    }
    proof {
        assert(v@.take(v.len() as int) =~= v@);
    }
    r
}

/// Dropping the top qubit of level `l` gives level `l + 1`.
proof fn lemma_next_level(first: &RoutedMultiplexer, l: int, b: &RoutedMultiplexer, n: &RoutedMultiplexer, value: i64)
    requires
        is_level_base(b, first, l),
        0 <= l,
        b.grey_to_arch_map@.contains_key((b.num_qubits - 1) as usize),
        b.grey_to_arch_map@.contains_key((b.num_qubits - 2) as usize),
        3 <= b.num_qubits <= 63,
        value == b.grey_to_arch_map@[(b.num_qubits - 1) as usize],
        n.num_qubits == b.num_qubits - 1,
        n.num_control == b.num_control - 1,
        n.grey_to_arch_map@ == b.grey_to_arch_map@.remove((b.num_qubits - 1) as usize),
        n.arch_to_grey_map@ == b.arch_to_grey_map@.remove(value),
        n.arch_qubits@ == b.arch_qubits@.remove(value),
        n.root == n.grey_to_arch_map@[(b.num_qubits - 2) as usize],
        n.optimal_neighborhood@ == b.optimal_neighborhood@.remove(value),
        n.num_angles == b.num_angles,
        n.neighbors@ == b.neighbors@,
        n.furthest_node == b.furthest_node,
        n.pairwise_dists@ == b.pairwise_dists@,
        n.gray_code@ == b.gray_code@,
        n.gray_gate_queue@ == b.gray_gate_queue@,
        n.gray_state_queue@ == b.gray_state_queue@,
        n.gate_queue@ == b.gate_queue@,
        n.discovered_pp_terms@ == b.discovered_pp_terms@,
        n.state@ == b.state@,
        n.state_to_angle@ == b.state_to_angle@,
    ensures
        is_level_base(n, first, l + 1),
{
    let nq = first.num_qubits;
    let top = (nq - 1 - l) as usize;
    let gone = removed_nodes(first, l);
    let gone1 = removed_nodes(first, l + 1);
    assert(first.grey_to_arch_map@.contains_key(top));
    assert(first.grey_to_arch_map@[top] == value);
    assert(top as int == nq - 1 - l);
    assert(gone1 =~= gone.insert(value)) by {
        assert forall|v: i64| gone1.contains(v) implies gone.insert(value).contains(v) by {
            let q = choose|q: usize|
                nq - (l + 1) <= q < nq && #[trigger] first.grey_to_arch_map@.contains_key(q) && first.grey_to_arch_map@[q] == v;
            if q != top {
                assert(nq - l <= q < nq && first.grey_to_arch_map@.contains_key(q) && first.grey_to_arch_map@[q] == v);
                assert(gone.contains(v));
            }
        }
        assert forall|v: i64| gone.insert(value).contains(v) implies gone1.contains(v) by {
            if gone.contains(v) {
                let q = choose|q: usize| nq - l <= q < nq && #[trigger] first.grey_to_arch_map@.contains_key(q) && first.grey_to_arch_map@[q] == v;
                assert(nq - (l + 1) <= q < nq && first.grey_to_arch_map@.contains_key(q) && first.grey_to_arch_map@[q] == v);
            } else {
                assert(v == value);
                assert(nq - (l + 1) <= top < nq && first.grey_to_arch_map@.contains_key(top) && first.grey_to_arch_map@[top] == v);
            }
        }
    }
    assert(n.arch_to_grey_map@ =~= first.arch_to_grey_map@.remove_keys(gone1));
    assert(n.grey_to_arch_map@ =~= first.grey_to_arch_map@.remove_keys(Set::new(|q: usize| nq - (l + 1) <= q < nq))) by {
        assert((b.num_qubits - 1) as usize == top);
        assert forall|q: usize| #[trigger] n.grey_to_arch_map@.contains_key(q) <==> (first.grey_to_arch_map@.contains_key(q)
            && !(nq - (l + 1) <= q < nq)) by {}
    }
    assert(n.arch_qubits@ =~= first.arch_qubits@.difference(gone1));
    assert(n.optimal_neighborhood@ =~= first.optimal_neighborhood@.remove_keys(gone1));
}

impl BlockZXZ {
    /// Plans the recursion: places a multiplexer on `num_qubits` qubits over
    /// the coupling map and builds its Gray-code sweep (kept as the first
    /// multiplexer); then, for `i` from `num_qubits` down to 3 (level
    /// `num_qubits - i`), weighs moving qubit `i - 1` along its path (see
    /// `best_swap_plan`), stores the kept candidate with its root and furthest
    /// node renamed and its paths recomputed, the swapped nodes and the swap
    /// map when it swaps, and drops qubit `i - 1` for the next level.
    #[verifier::spinoff_prover]
    pub fn initialize_multiplexers(&mut self, num_qubits: i64)
        requires
            plan_defined(old(self).coupling_map@, num_qubits),
        ensures
            is_first_level(&final(self).original_multiplexer, old(self).coupling_map@, num_qubits),
            forall|l: int|
                0 <= l < num_qubits - 2 ==> #[trigger] level_stored(
                    &final(self).original_multiplexer,
                    l,
                    final(self).routed_multiplexers@,
                    final(self).swaps_per_level@,
                    final(self).swap_maps@,
                ),
            forall|key: i64|
                !(0 <= key < num_qubits - 2) ==> {
                    &&& #[trigger] final(self).routed_multiplexers@.contains_key(key) == old(self).routed_multiplexers@.contains_key(key)
                    &&& final(self).routed_multiplexers@[key] == old(self).routed_multiplexers@[key]
                    &&& final(self).swaps_per_level@.contains_key(key) == old(self).swaps_per_level@.contains_key(key)
                    &&& final(self).swaps_per_level@[key] == old(self).swaps_per_level@[key]
                    &&& final(self).swap_maps@.contains_key(key) == old(self).swap_maps@.contains_key(key)
                    &&& final(self).swap_maps@[key] == old(self).swap_maps@[key]
                },
            final(self).coupling_map@ == old(self).coupling_map@,
            final(self).gate_queue@ == old(self).gate_queue@,
    {
        let ghost cm = self.coupling_map@;
        let nq = num_qubits;
        let edges = copy_edges(&self.coupling_map);
        let mut multiplexer = RoutedMultiplexer::new(edges, num_qubits);
        let ghost m0 = multiplexer;
        proof {
            assert(is_fresh(&m0, cm, nq));
        }
        multiplexer.map_grey_qubits_to_arch_unitary_synth();
        let ghost m1 = multiplexer;
        proof {
            assert(placed_from(&m0, &m1));
            assert(is_placed(&m1, cm, nq));
        }
        let cost0 = multiplexer.get_optimal_gray_code();
        proof {
            assert(coded_from(&m1, &multiplexer, cost0 as int));
            assert(is_first_level(&multiplexer, cm, nq));
        }
        self.original_multiplexer = multiplexer.duplicate();
        let ghost first = self.original_multiplexer;
        proof {
            assert(coded_from(&m1, &first, cost0 as int));
            assert(is_first_level(&first, cm, nq));
            assert(levels_defined(&first));
            assert(removed_nodes(&first, 0) =~= Set::<i64>::empty());
            assert(first.arch_to_grey_map@.remove_keys(removed_nodes(&first, 0)) =~= first.arch_to_grey_map@);
            assert(first.grey_to_arch_map@.remove_keys(Set::new(|q: usize| first.num_qubits - 0 <= q < first.num_qubits))
                =~= first.grey_to_arch_map@);
            assert(first.arch_qubits@.difference(removed_nodes(&first, 0)) =~= first.arch_qubits@);
            assert(first.optimal_neighborhood@.remove_keys(removed_nodes(&first, 0)) =~= first.optimal_neighborhood@);
            assert(is_level_base(&multiplexer, &first, 0));
        }
        let mut level: i64 = 0;
        let mut i: i64 = num_qubits;
        while i >= 3
            invariant
                level == nq - i,
                i <= nq,
                i >= 2 || i == nq,
                0 <= level,
                first.num_qubits == nq,
                self.original_multiplexer == first,
                self.coupling_map@ == cm,
                self.gate_queue@ == old(self).gate_queue@,
                levels_defined(&first),
                is_level_base(&multiplexer, &first, level as int),
                forall|l: int|
                    0 <= l < level ==> #[trigger] level_stored(
                        &first,
                        l,
                        self.routed_multiplexers@,
                        self.swaps_per_level@,
                        self.swap_maps@,
                    ),
                forall|key: i64|
                    !(0 <= key < level) ==> {
                        &&& #[trigger] self.routed_multiplexers@.contains_key(key) == old(self).routed_multiplexers@.contains_key(key)
                        &&& self.routed_multiplexers@[key] == old(self).routed_multiplexers@[key]
                        &&& self.swaps_per_level@.contains_key(key) == old(self).swaps_per_level@.contains_key(key)
                        &&& self.swaps_per_level@[key] == old(self).swaps_per_level@[key]
                        &&& self.swap_maps@.contains_key(key) == old(self).swap_maps@.contains_key(key)
                        &&& self.swap_maps@[key] == old(self).swap_maps@[key]
                    },
            decreases i,
        {
            let ghost base = multiplexer;
            let ghost r0 = self.routed_multiplexers@;
            let ghost w0 = self.swaps_per_level@;
            let ghost z0 = self.swap_maps@;
            proof {
                assert(level_defined(&base));
                assert(candidate_ok(&base, target_path(&base, top_node(&base)), 0));
            }
            let top = (i - 1) as usize;
            let target = match multiplexer.grey_to_arch_map.get(&top) {
                Some(x) => *x,
                None => 0,
            };
            let ghost p = target_path(&base, target);
            let (best_cost, best_arch_to_grey, best_swap_count, best_multiplexer) = best_swap_plan(&multiplexer, target);
            let ghost (s, costs) = choose|s: int, costs: Seq<int>|
                #[trigger] chosen_swaps(&base, p, costs, s) && {
                    &&& best_cost == costs[s]
                    &&& best_arch_to_grey@ == swap_along(base.arch_to_grey_map@, p, s)
                    &&& best_swap_count == s
                    &&& kept_candidate(&base, p, s, costs, &best_multiplexer)
                };
            let ghost a = swap_along(base.arch_to_grey_map@, p, s);
            let ghost g = inverse_placement(a);
            proof {
                assert(finish_ok(&base, p, s));
                if s > 0 {
                    assert(forall|t: int| 0 <= t < p.len() ==> base.arch_to_grey_map@.contains_key(#[trigger] p[t]));
                    lemma_swap_along_keys(base.arch_to_grey_map@, p, s);
                }
                assert(is_injective(a));
            }
            let path_to_root = match multiplexer.optimal_neighborhood.get(&target) {
                Some(path) => copy_values(path),
                None => Vec::new(),
            };
            let mut current = best_multiplexer.duplicate();
            current.arch_to_grey_map = best_arch_to_grey.clone();
            current.grey_to_arch_map = inverse_of(&best_arch_to_grey);
            current.root = match current.grey_to_arch_map.get(&top) {
                Some(x) => *x,
                None => 0,
            };
            current.furthest_node = match current.grey_to_arch_map.get(&0) {
                Some(x) => *x,
                None => 0,
            };
            proof {
                assert(adjacency(&current.neighbors) == adjacency(&base.neighbors));
                assert(recompute_defined(&current));
            }
            let ghost pre = current;
            current.recompute_optimal_neighborhood();
            if best_swap_count == 0 {
                self.swaps_per_level.insert(level, None);
                self.swap_maps.insert(level, None);
            } else {
                let len = path_to_root.len();
                let start = len - 1 - (best_swap_count as usize);
                let mut kept: Vec<i64> = Vec::new();
                let mut t: usize = start;
                while t < len
                    invariant
                        start <= t <= len,
                        len == path_to_root.len(),
                        kept@ == path_to_root@.subrange(start as int, t as int),
                    decreases len - t,
                {
                    kept.push(path_to_root[t]);
                    proof {
                        assert(kept@ =~= path_to_root@.subrange(start as int, t + 1));
                    }
                    t = t + 1;
                }
                self.swaps_per_level.insert(level, Some(kept));
                let z = zip_values(&current.arch_to_grey_map, &self.original_multiplexer.arch_to_grey_map);
                self.swap_maps.insert(level, Some(z));
            }
            self.routed_multiplexers.insert(level, current);
            proof {
                let routed = self.routed_multiplexers@[level];
                assert(routed == current);
                assert(p == target_path(&base, top_node(&base)));
                assert(routed.arch_to_grey_map@ == a);
                assert(routed.grey_to_arch_map@ == g);
                assert(routed.root == g[top]);
                assert(routed.furthest_node == g[0]);
                assert(routed.optimal_neighborhood@.dom() =~= crate::routing::neighborhood_paths(&routed).dom());
                assert(pre.optimal_neighborhood@.dom() =~= crate::routing::neighborhood_paths(&pre).dom());
                assert(routed.optimal_neighborhood@.dom() == base.optimal_neighborhood@.dom());
                assert(routed.num_angles == base.num_angles);
                assert(routed.neighbors@ == base.neighbors@);
                assert(routed.arch_qubits@ == base.arch_qubits@);
                assert(routed.gray_gate_queue@ == best_multiplexer.gray_gate_queue@);
                assert(s == 0 ==> self.swaps_per_level@[level] is None && self.swap_maps@[level] is None);
                assert(s > 0 ==> (self.swaps_per_level@[level] matches Some(v) && v@ == p.subrange(p.len() - 1 - s, p.len() as int)));
                assert(s > 0 ==> (self.swap_maps@[level] matches Some(z) && is_value_zip(z@, a, first.arch_to_grey_map@)));
                assert(level_result(
                    &base,
                    first.arch_to_grey_map@,
                    &self.routed_multiplexers@[level],
                    self.swaps_per_level@[level],
                    self.swap_maps@[level],
                ));
                assert(level_stored(&first, level as int, self.routed_multiplexers@, self.swaps_per_level@, self.swap_maps@));
            }
            multiplexer.num_qubits = multiplexer.num_qubits - 1;
            multiplexer.num_control = multiplexer.num_control - 1;
            let value = match multiplexer.grey_to_arch_map.remove(&top) {
                Some(v) => v,
                None => 0,
            };
            multiplexer.arch_to_grey_map.remove(&value);
            multiplexer.arch_qubits.remove(&value);
            multiplexer.root = match multiplexer.grey_to_arch_map.get(&((i - 2) as usize)) {
                Some(x) => *x,
                None => 0,
            };
            multiplexer.optimal_neighborhood.remove(&value);
            proof {
                lemma_next_level(&first, level as int, &base, &multiplexer, value);
                let r1 = self.routed_multiplexers@;
                let w1 = self.swaps_per_level@;
                let z1 = self.swap_maps@;
                assert forall|l: int| 0 <= l < level + 1 implies #[trigger] level_stored(&first, l, r1, w1, z1) by {
                    if l < level {
                        assert(level_stored(&first, l, r0, w0, z0));
                        assert(r1[l as i64] == r0[l as i64]);
                        assert(w1[l as i64] == w0[l as i64]);
                        assert(z1[l as i64] == z0[l as i64]);
                        let b = choose|b: RoutedMultiplexer|
                            #[trigger] is_level_base(&b, &first, l) && level_result(&b, first.arch_to_grey_map@, &r0[l as i64], w0[l as i64], z0[l as i64]);
                        assert(is_level_base(&b, &first, l) && level_result(&b, first.arch_to_grey_map@, &r1[l as i64], w1[l as i64], z1[l as i64]));
                    }
                }
                assert forall|key: i64| !(0 <= key < level + 1) implies {
                    &&& #[trigger] r1.contains_key(key) == old(self).routed_multiplexers@.contains_key(key)
                    &&& r1[key] == old(self).routed_multiplexers@[key]
                    &&& w1.contains_key(key) == old(self).swaps_per_level@.contains_key(key)
                    &&& w1[key] == old(self).swaps_per_level@[key]
                    &&& z1.contains_key(key) == old(self).swap_maps@.contains_key(key)
                    &&& z1[key] == old(self).swap_maps@[key]
                } by {
                    assert(r0.contains_key(key) == old(self).routed_multiplexers@.contains_key(key));
                    assert(r1.contains_key(key) == r0.contains_key(key));
                    assert(r1[key] == r0[key]);
                    assert(w1.contains_key(key) == w0.contains_key(key));
                    assert(w1[key] == w0[key]);
                    assert(z1.contains_key(key) == z0.contains_key(key));
                    assert(z1[key] == z0[key]);
                }
            }
            level = level + 1;
            i = i - 1;
        }
    }
}

/// The rotations after the first one is dropped: the first rotation stays in
/// front and the one after it goes.
pub open spec fn drop_second(ga: Seq<RoutingGate>) -> Seq<RoutingGate> {
    if ga.len() >= 2 {
        seq![ga[0]] + ga.subrange(2, ga.len() as int)
    } else {
        ga
    }
}

/// Absorbing the trailing CNOTs of `gc` into the middle block, with the
/// routed rotation gates `ga` of the other multiplexer, for target qubit `tq`.
/// The last gate of `gc` is taken off: a CNOT on qubits up to `tq` is absorbed
/// and the first gate of `ga` dropped; a Z rotation preceded by a CNOT from
/// qubit 0 to qubit 1 stays, that CNOT is absorbed instead and the second gate
/// of `ga` dropped; anything else ends the absorption with `gc` as it was.
/// Returns what is left of `gc` and `ga`, and the absorbed CNOTs in order.
pub open spec fn absorbed(gc: Seq<RoutingGate>, ga: Seq<RoutingGate>, tq: int) -> (
    Seq<RoutingGate>,
    Seq<RoutingGate>,
    Seq<RoutingGate>,
)
    decreases gc.len(),
{
    if gc.len() == 0 {
        (gc, ga, Seq::empty())
    } else {
        let g = gc.last();
        let rest = gc.drop_last();
        if g.name == GateName::RZ {
            if rest.len() == 0 {
                (gc, ga, Seq::empty())
            } else {
                let nx = rest.last();
                if nx.ctrl == 0 && nx.targ == 1 {
                    let r = absorbed(rest.drop_last().push(g), drop_second(ga), tq);
                    (r.0, r.1, seq![nx] + r.2)
                } else {
                    (gc, ga, Seq::empty())
                }
            }
        } else if g.ctrl >= tq + 1 || g.targ >= tq + 1 {
            (gc, ga, Seq::empty())
        } else {
            let r = absorbed(rest, ga.drop_first(), tq);
            (r.0, r.1, seq![g] + r.2)
        }
    }
}

/// The absorption can run: a rotation at the end always has a gate before it,
/// and there is a gate of `ga` to drop whenever one is dropped.
pub open spec fn absorb_defined(gc: Seq<RoutingGate>, ga: Seq<RoutingGate>, tq: int) -> bool
    decreases gc.len(),
{
    if gc.len() == 0 {
        true
    } else {
        let g = gc.last();
        let rest = gc.drop_last();
        if g.name == GateName::RZ {
            &&& rest.len() >= 1
            &&& rest.last().ctrl == 0 && rest.last().targ == 1 ==> {
                &&& ga.len() >= 1
                &&& absorb_defined(rest.drop_last().push(g), drop_second(ga), tq)
            }
        } else if g.ctrl >= tq + 1 || g.targ >= tq + 1 {
            true
        } else {
            &&& ga.len() >= 1
            &&& absorb_defined(rest, ga.drop_first(), tq)
        }
    }
}

/// Moves the trailing CNOTs of `gates_c` into the middle block (see
/// `absorbed`) and returns them in the order in which they are absorbed.
pub fn absorb_trailing_cnots(
    gates_c: &mut VecDeque<RoutingGate>,
    gates_a: &mut VecDeque<RoutingGate>,
    target_qubit: usize,
) -> (applied: Vec<RoutingGate>)
    requires
        target_qubit < usize::MAX,
        absorb_defined(old(gates_c)@, old(gates_a)@, target_qubit as int),
    ensures
        (final(gates_c)@, final(gates_a)@, applied@) == absorbed(old(gates_c)@, old(gates_a)@, target_qubit as int),
{
    let ghost gc0 = gates_c@;
    let ghost ga0 = gates_a@;
    let ghost tq = target_qubit as int;
    let mut applied: Vec<RoutingGate> = Vec::new();
    while gates_c.len() > 0
        invariant
            tq == target_qubit as int,
            target_qubit < usize::MAX,
            absorb_defined(gates_c@, gates_a@, tq),
            absorbed(gc0, ga0, tq) == (
                absorbed(gates_c@, gates_a@, tq).0,
                absorbed(gates_c@, gates_a@, tq).1,
                applied@ + absorbed(gates_c@, gates_a@, tq).2,
            ),
        ensures
            absorbed(gates_c@, gates_a@, tq) == (gates_c@, gates_a@, Seq::<RoutingGate>::empty()),
        decreases gates_c@.len(),
    {
        let ghost gc = gates_c@;
        let ghost ga = gates_a@;
        let ghost ap = applied@;
        let popped = match gates_c.pop_back() {
            Some(g) => g,
            None => {
                break;
            },
        };
        proof {
            assert(popped == gc.last());
            assert(gates_c@ =~= gc.drop_last());
        }
        if popped.name == GateName::RZ {
            let next = match gates_c.pop_back() {
                Some(g) => g,
                None => {
                    return applied;
                },
            };
            if next.ctrl == 0 && next.targ == 1 {
                gates_c.push_back(popped);
                let rz_a = match gates_a.pop_front() {
                    Some(g) => g,
                    None => {
                        return applied;
                    },
                };
                gates_a.pop_front();
                gates_a.push_front(rz_a);
                applied.push(next);
                proof {
                    assert(gates_c@ =~= gc.drop_last().drop_last().push(popped));
                    assert(gates_a@ =~= drop_second(ga));
                    let r = absorbed(gates_c@, gates_a@, tq);
                    assert(absorbed(gc, ga, tq) == (r.0, r.1, seq![next] + r.2));
                    assert(ap.push(next) + r.2 =~= ap + (seq![next] + r.2));
                }
            } else {
                gates_c.push_back(next);
                gates_c.push_back(popped);
                proof {
                    assert(gates_c@ =~= gc);
                }
                break;
            }
        } else if popped.ctrl >= target_qubit + 1 || popped.targ >= target_qubit + 1 {
            gates_c.push_back(popped);
            proof {
                assert(gates_c@ =~= gc);
            }
            break;
        } else {
            gates_a.pop_front();
            applied.push(popped);
            proof {
                assert(gates_a@ =~= ga.drop_first());
                let r = absorbed(gates_c@, gates_a@, tq);
                assert(absorbed(gc, ga, tq) == (r.0, r.1, seq![popped] + r.2));
                assert(ap.push(popped) + r.2 =~= ap + (seq![popped] + r.2));
            }
        }
    }
    proof {
        assert(applied@ + Seq::<RoutingGate>::empty() =~= applied@);
    }
    applied
}

/// Whether `absorb_trailing_cnots` can run on these gates (see `absorb_defined`).
pub fn can_absorb(gates_c: &VecDeque<RoutingGate>, gates_a: &VecDeque<RoutingGate>, target_qubit: usize) -> (r: bool)
    requires
        target_qubit < usize::MAX,
    ensures
        r == absorb_defined(gates_c@, gates_a@, target_qubit as int),
{
    let ghost tq = target_qubit as int;
    let mut gc = copy_gates(gates_c);
    let mut ga = copy_gates(gates_a);
    while gc.len() > 0
        invariant
            tq == target_qubit as int,
            target_qubit < usize::MAX,
            absorb_defined(gates_c@, gates_a@, tq) == absorb_defined(gc@, ga@, tq),
        decreases gc@.len(),
    {
        let ghost c0 = gc@;
        let ghost a0 = ga@;
        let popped = match gc.pop_back() {
            Some(g) => g,
            None => {
                return true;
            },
        };
        proof {
            assert(popped == c0.last());
            assert(gc@ =~= c0.drop_last());
        }
        if popped.name == GateName::RZ {
            let next = match gc.pop_back() {
                Some(g) => g,
                None => {
                    return false;
                },
            };
            if next.ctrl == 0 && next.targ == 1 {
                if ga.len() == 0 {
                    return false;
                }
                gc.push_back(popped);
                let rz_a = match ga.pop_front() {
                    Some(g) => g,
                    None => {
                        return false;
                    },
                };
                ga.pop_front();
                ga.push_front(rz_a);
                proof {
                    assert(gc@ =~= c0.drop_last().drop_last().push(popped));
                    assert(ga@ =~= drop_second(a0));
                }
            } else {
                return true;
            }
        } else if popped.ctrl >= target_qubit + 1 || popped.targ >= target_qubit + 1 {
            return true;
        } else {
            if ga.len() == 0 {
                return false;
            }
            ga.pop_front();
            proof {
                assert(ga@ =~= a0.drop_first());
            }
        }
    }
    true
}

/// Each gate with its control and target renamed by `swap_map`.
pub open spec fn remapped(gates: Seq<RoutingGate>, swap_map: Map<usize, usize>) -> Seq<RoutingGate> {
    gates.map_values(|g: RoutingGate| RoutingGate { ctrl: swap_map[g.ctrl], targ: swap_map[g.targ], ..g })
}

/// Renames the control and target of every gate by `swap_map`.
pub fn remap_gates(gates: &mut VecDeque<RoutingGate>, swap_map: &HashMap<usize, usize>)
    requires
        forall|i: int| 0 <= i < old(gates)@.len() ==> swap_map@.contains_key(#[trigger] old(gates)@[i].ctrl) && swap_map@.contains_key(old(gates)@[i].targ),
    ensures
        final(gates)@ == remapped(old(gates)@, swap_map@),
{
    let ghost g0 = gates@;
    proof {
        assert(g0 == old(gates)@);
        assert forall|k: int| 0 <= k < g0.len() implies swap_map@.contains_key(#[trigger] g0[k].ctrl) && swap_map@.contains_key(
            g0[k].targ,
        ) by {
            assert(swap_map@.contains_key(old(gates)@[k].ctrl) && swap_map@.contains_key(old(gates)@[k].targ));
        }
    }
    let mut renamed: VecDeque<RoutingGate> = VecDeque::new();
    let mut i: usize = 0;
    while i < gates.len()
        invariant
            0 <= i <= gates@.len(),
            gates@ == g0,
            forall|k: int| 0 <= k < g0.len() ==> swap_map@.contains_key(#[trigger] g0[k].ctrl) && swap_map@.contains_key(g0[k].targ),
            renamed@ == remapped(g0, swap_map@).take(i as int),
        decreases gates@.len() - i,
    {
        let g = gates[i];
        let ctrl = match swap_map.get(&g.ctrl) {
            Some(x) => *x,
            None => 0,
        };
        let targ = match swap_map.get(&g.targ) {
            Some(x) => *x,
            None => 0,
        };
        renamed.push_back(RoutingGate { name: g.name, ctrl, targ, angle: g.angle });
        proof {
            assert(renamed@ =~= remapped(g0, swap_map@).take(i + 1));
        }
        i = i + 1;
    }
    proof {
        assert(remapped(g0, swap_map@).take(g0.len() as int) =~= remapped(g0, swap_map@));
    }
    *gates = renamed;
}

/// The SWAPs back along a path are those forward along it in reverse order,
/// so `swap_to(path, true)` undoes what `swap_to(path, false)` does.
pub proof fn lemma_swap_chain_reverse(a2g: Map<i64, usize>, path: Seq<i64>)
    requires
        path.len() >= 1,
    ensures
        swap_chain(a2g, path, true) == swap_chain(a2g, path, false).reverse(),
{
    assert(swap_chain(a2g, path, true) =~= swap_chain(a2g, path, false).reverse());
}

/// Every absorbed CNOT takes one gate off `gc`, and at most one off `ga`.
pub proof fn lemma_absorb_counts(gc: Seq<RoutingGate>, ga: Seq<RoutingGate>, tq: int)
    requires
        absorb_defined(gc, ga, tq),
    ensures
        absorbed(gc, ga, tq).2.len() == gc.len() - absorbed(gc, ga, tq).0.len(),
        ga.len() - absorbed(gc, ga, tq).1.len() <= absorbed(gc, ga, tq).2.len(),
    decreases gc.len(),
{
    if gc.len() > 0 {
        let g = gc.last();
        let rest = gc.drop_last();
        if g.name == GateName::RZ {
            if rest.len() > 0 {
                let nx = rest.last();
                if nx.ctrl == 0 && nx.targ == 1 {
                    lemma_absorb_counts(rest.drop_last().push(g), drop_second(ga), tq);
                }
            }
        } else if !(g.ctrl >= tq + 1 || g.targ >= tq + 1) {
            lemma_absorb_counts(rest, ga.drop_first(), tq);
        }
    }
}

/// The Gray code of a first level lists every number below `2^(nq - 1)`
/// exactly once, starting from 0: placing the qubits of a new multiplexer and
/// building its sweep visits every parity term of the rotation qubit once.
pub proof fn lemma_first_level_gray_code(o: &RoutedMultiplexer, cm: Seq<[i64; 2]>, nq: i64)
    requires
        is_first_level(o, cm, nq),
        2 <= nq <= 62,
        forall|p: RoutedMultiplexer| #[trigger] is_placed(&p, cm, nq) ==> gray_code_defined(&p),
    ensures
        ({
            let codes = vstd::arithmetic::power2::pow2((nq - 1) as nat);
            &&& o.gray_code@.len() == codes
            &&& o.gray_code@[0] == 0
            &&& forall|k: int| 0 <= k < codes ==> 0 <= #[trigger] o.gray_code@[k] < codes
            &&& forall|k1: int, k2: int| 0 <= k1 < k2 < codes ==> #[trigger] o.gray_code@[k1] != #[trigger] o.gray_code@[k2]
        }),
{
    let (p, c) = choose|p: RoutedMultiplexer, c: int| #[trigger] is_placed(&p, cm, nq) && #[trigger] coded_from(&p, o, c);
    let m = choose|m: RoutedMultiplexer| #[trigger] is_fresh(&m, cm, nq) && placed_from(&m, &p);
    assert(gray_code_defined(&p));
    let nc = p.num_control;
    assert(nc == nq - 1);
    let g = adjacency(&m.neighbors);
    let n = m.num_qubits as int;
    let nk = m.neighbors@.len();
    let (dm, r) = choose|dm: Map<i64, Map<i64, i64>>, r: Seq<i64>|
        #[trigger] crate::placement::cluster_outcome(&m.neighbors, n, dm, r) && {
            &&& distance_table(&p.pairwise_dists) == dm
            &&& crate::placement::is_cluster_paths(g, r, crate::routing::neighborhood_paths(&p))
            &&& p.grey_to_arch_map@ == crate::placement::enumeration(r)
            &&& p.arch_to_grey_map@ == crate::placement::placed_qubits(m.arch_to_grey_map@, r)
            &&& p.arch_qubits@ == r.to_set()
            &&& p.root == r[m.num_control as int]
            &&& p.furthest_node == r[0]
            &&& r.len() <= usize::MAX
        };
    assert(r.no_duplicates()) by {
        if crate::cluster_finding::uses_exact_search(nk, n, "auto"@) {
            assert(crate::cluster_finding::is_exact_cluster(g, n, dm, r));
        } else {
            assert(crate::cluster_finding::is_greedy_result(g, n, dm, r));
        }
    }
    crate::placement::lemma_placement_inverse(&m, &p);
    let a2g = p.arch_to_grey_map@;
    assert(nc < r.len()) by {
        assert(a2g.dom() =~= r.to_set());
        r.lemma_cardinality_of_set();
    }
    assert(a2g[p.root] == nc as usize) by {
        assert(r.contains(r[nc as int]));
        let i = choose|i: int| 0 <= i < r.len() && r[i] == r[nc as int];
        assert(i == nc as int);
    }
    assert forall|u: i64, v: i64| #[trigger] a2g.contains_key(u) && #[trigger] a2g.contains_key(v) && u != v implies a2g[u]
        != a2g[v] by {
        assert(p.grey_to_arch_map@[a2g[u]] == u);
        assert(p.grey_to_arch_map@[a2g[v]] == v);
    }
    let codes = vstd::arithmetic::power2::pow2(nc as nat);
    let (dl, counts) = choose|dl: Seq<(i64, i64)>, counts: Seq<i64>|
        #![trigger gray_code_cost(dl, counts)]
        {
            &&& is_root_distance_list(&p, dl)
            &&& is_reordering(counts, cnot_counts(p.num_qubits))
            &&& c == gray_code_cost(dl, counts)
            &&& o.gray_gate_queue@ == p.gray_gate_queue@ + gray_build(&p, dl, codes as int).0
            &&& o.gray_state_queue@ == p.gray_state_queue@ + gray_build(&p, dl, codes as int).1
        };
    crate::gray_code::lemma_placed_sweep_visits_each_term_once(&p, dl);
    let st = gray_build(&p, dl, codes as int).1;
    assert(o.gray_state_queue@ =~= st);
    crate::gray_code::lemma_pow2_bound(nc as nat);
    let top = codes as i64;
    assert forall|k: int| 0 <= k < codes implies 0 <= #[trigger] o.gray_code@[k] < codes && o.gray_code@[k] == st[k] - top by {
        let s = st[k];
        assert(o.gray_code@[k] == s ^ top);
        assert(0 <= (s ^ top) && (s ^ top) == s - top) by (bit_vector)
            requires
                top <= s < 2 * top,
                0 < top <= 0x2000_0000_0000_0000,
                top & (top - 1) as i64 == 0,
        ;
    }
    assert forall|k1: int, k2: int| 0 <= k1 < k2 < codes implies #[trigger] o.gray_code@[k1] != #[trigger] o.gray_code@[k2] by {
        assert(st[k1] != st[k2]);
    }
}

/// At every planned level the rotation qubit, the top qubit of the level,
/// sits on the level's root, and qubit 0 on its furthest node.
pub proof fn lemma_level_root_holds_rotation_qubit(
    first: &RoutedMultiplexer,
    l: int,
    routed: Map<i64, RoutedMultiplexer>,
    swaps: Map<i64, Option<Vec<i64>>>,
    smaps: Map<i64, Option<HashMap<usize, usize>>>,
)
    requires
        level_stored(first, l, routed, swaps, smaps),
    ensures
        ({
            let r = routed[l as i64];
            &&& r.arch_to_grey_map@.contains_key(r.root)
            &&& r.arch_to_grey_map@[r.root] == (r.num_qubits - 1) as usize
            &&& r.arch_to_grey_map@.contains_key(r.furthest_node)
            &&& r.arch_to_grey_map@[r.furthest_node] == 0
        }),
{
    let b = choose|b: RoutedMultiplexer|
        #[trigger] is_level_base(&b, first, l) && level_result(&b, first.arch_to_grey_map@, &routed[l as i64], swaps[l as i64], smaps[l as i64]);
    let r = routed[l as i64];
    let p = target_path(&b, top_node(&b));
    let (s, costs, best) = choose|s: int, costs: Seq<int>, best: RoutedMultiplexer|
        #[trigger] chosen_swaps(&b, p, costs, s) && #[trigger] kept_candidate(&b, p, s, costs, &best) && {
            let a = swap_along(b.arch_to_grey_map@, p, s);
            let g = inverse_placement(a);
            let top = (b.num_qubits - 1) as usize;
            &&& r.arch_to_grey_map@ == a
            &&& r.grey_to_arch_map@ == g
            &&& g.contains_key(top)
            &&& g.contains_key(0)
            &&& r.root == g[top]
            &&& r.furthest_node == g[0]
            &&& r.num_qubits == b.num_qubits
        };
}

} // verus!
