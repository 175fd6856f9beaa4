//! Placing a multiplexer's qubits on the coupling graph: a tight cluster of
//! hardware nodes is found, qubit `i` goes to the cluster's `i`-th node, and
//! every node is given a shortest path from the cluster's first node that
//! stays inside the cluster.
use std::collections::{HashMap, HashSet};
use vstd::prelude::*;
use crate::cluster_finding::{
    choose_count, exact_search_defined, find_closest_cluster, greedy_search_defined, is_all_pairs_table,
    is_exact_cluster, is_greedy_result, uses_exact_search, exact_result, greedy_outcome,
};
use crate::graph::{adjacency, distance_table, is_distance, key_order, reachable, walk_between};
use crate::routing::{RoutedMultiplexer, neighborhood_paths};
use crate::utils::{get_path, induced};

verus! {

broadcast use vstd::std_specs::hash::group_hash_axioms;

/// `p` is a shortest walk from `s` to `t` in `g`.
pub open spec fn is_shortest_walk(g: Map<i64, Set<i64>>, p: Seq<i64>, s: i64, t: i64) -> bool {
    walk_between(g, p, s, t) && is_distance(g, s, t, p.len() - 1)
}

/// `r` and `dm` are the outcome of the closest-cluster search for `n` nodes
/// with the method `"auto"` on the map `nb`: its all-pairs table, and the
/// exact search's result in the map's key order, or the greedy search's
/// outcome on the map, whichever the method picks.
pub open spec fn cluster_outcome(
    nb: &HashMap<i64, HashSet<i64>>,
    n: int,
    dm: Map<i64, Map<i64, i64>>,
    r: Seq<i64>,
) -> bool {
    let g = adjacency(nb);
    let num_keys = nb@.len();
    &&& is_all_pairs_table(g, dm)
    &&& uses_exact_search(num_keys, n, "auto"@) ==> is_exact_cluster(g, n, dm, r) && exact_result(key_order(nb), n, dm, r)
    &&& !uses_exact_search(num_keys, n, "auto"@) ==> is_greedy_result(g, n, dm, r) && greedy_outcome(nb, n, dm, r)
}

/// Every node of the cluster `r` can be reached from its first node without
/// leaving the cluster.
pub open spec fn cluster_routable(g: Map<i64, Set<i64>>, r: Seq<i64>) -> bool {
    &&& r.len() >= 1
    &&& forall|i: int| 0 <= i < r.len() ==> #[trigger] reachable(induced(g, r.to_set()), r[0], r[i])
}

/// `paths` gives each node of the cluster `r` a shortest walk to it from
/// `r[0]` that stays inside the cluster.
pub open spec fn is_cluster_paths(g: Map<i64, Set<i64>>, r: Seq<i64>, paths: Map<i64, Seq<i64>>) -> bool {
    &&& paths.dom() == r.to_set()
    &&& forall|v: i64| #[trigger] paths.contains_key(v) ==> is_shortest_walk(induced(g, r.to_set()), paths[v], r[0], v)
}

/// Qubit `i` on the `i`-th node of `r`.
pub open spec fn enumeration(r: Seq<i64>) -> Map<usize, i64> {
    Map::new(|i: usize| i < r.len(), |i: usize| r[i as int])
}

/// `find_optimal_neighborhood_closest_cluster` can run on `m`: the search's
/// own conditions hold for `m.num_qubits` nodes, and the cluster it returns
/// on `m`'s map is non-empty and connected inside itself.
pub open spec fn neighborhood_defined(m: &RoutedMultiplexer) -> bool {
    let g = adjacency(&m.neighbors);
    let nk = m.neighbors@.len();
    let n = m.num_qubits as int;
    &&& nk < u32::MAX
    &&& choose_count(nk, n as usize as nat) <= usize::MAX
    &&& uses_exact_search(nk, n, "auto"@) ==> exact_search_defined(g, n)
    &&& !uses_exact_search(nk, n, "auto"@) ==> greedy_search_defined(g, n)
    &&& forall|dm: Map<i64, Map<i64, i64>>, r: Seq<i64>| #[trigger] cluster_outcome(&m.neighbors, n, dm, r) ==> cluster_routable(g, r)
}

impl RoutedMultiplexer {
    /// Finds the closest cluster of `num_qubits` nodes (method `"auto"`; the
    /// cluster is the search's result on this map, see `cluster_outcome`),
    /// keeps its distance table, and returns for each cluster node a shortest
    /// path to it from the cluster's first node inside the cluster, together
    /// with qubit `i` mapped to the cluster's `i`-th node.
    pub fn find_optimal_neighborhood_closest_cluster(&mut self) -> (res: (HashMap<i64, Vec<i64>>, HashMap<usize, i64>))
        requires
            neighborhood_defined(old(self)),
        ensures
            exists|dm: Map<i64, Map<i64, i64>>, r: Seq<i64>|
                #[trigger] cluster_outcome(&old(self).neighbors, old(self).num_qubits as int, dm, r) && {
                    &&& distance_table(&final(self).pairwise_dists) == dm
                    &&& is_cluster_paths(adjacency(&old(self).neighbors), r, res.0@.map_values(|p: Vec<i64>| p@))
                    &&& res.1@ == enumeration(r)
                    &&& r.len() <= usize::MAX
                },
            final(self).num_angles == old(self).num_angles,
            final(self).num_qubits == old(self).num_qubits,
            final(self).num_control == old(self).num_control,
            final(self).neighbors@ == old(self).neighbors@,
            final(self).root == old(self).root,
            final(self).furthest_node == old(self).furthest_node,
            final(self).arch_to_grey_map@ == old(self).arch_to_grey_map@,
            final(self).grey_to_arch_map@ == old(self).grey_to_arch_map@,
            final(self).optimal_neighborhood@ == old(self).optimal_neighborhood@,
            final(self).gray_code@ == old(self).gray_code@,
            final(self).gray_gate_queue@ == old(self).gray_gate_queue@,
            final(self).gray_state_queue@ == old(self).gray_state_queue@,
            final(self).arch_qubits@ == old(self).arch_qubits@,
            final(self).gate_queue@ == old(self).gate_queue@,
            final(self).discovered_pp_terms@ == old(self).discovered_pp_terms@,
            final(self).state@ == old(self).state@,
            final(self).state_to_angle@ == old(self).state_to_angle@,
    {
        let ghost g = adjacency(&self.neighbors);
        let ghost n = self.num_qubits as int;
        let ghost nk = self.neighbors@.len();
        let (cluster_e, dists) = find_closest_cluster(self.num_qubits, &self.neighbors, "auto");
        let ghost r = cluster_e@;
        let ghost dm = distance_table(&dists);
        proof {
            assert(cluster_outcome(&self.neighbors, n, dm, r));
            assert(cluster_routable(g, r));
        }
        self.pairwise_dists = dists;
        let root = cluster_e[0];
        let mut cluster_set: HashSet<i64> = HashSet::new();
        let mut i: usize = 0;
        while i < cluster_e.len()
            invariant
                0 <= i <= cluster_e.len(),
                cluster_set@ == cluster_e@.take(i as int).to_set(),
            decreases cluster_e.len() - i,
        {
            proof {
                assert(cluster_e@.take(i + 1) =~= cluster_e@.take(i as int).push(cluster_e@[i as int]));
                cluster_e@.take(i as int).lemma_push_to_set_commute(cluster_e@[i as int]);
            }
            cluster_set.insert(cluster_e[i]);
            i = i + 1;
        }
        proof {
            assert(cluster_e@.take(cluster_e.len() as int) =~= cluster_e@);
        }
        let ghost sub = induced(g, r.to_set());
        let mut paths: HashMap<i64, Vec<i64>> = HashMap::new();
        paths.insert(root, vec![root]);
        proof {
            let p0 = seq![root];
            assert(walk_between(sub, p0, root, root));
            assert(paths@[root]@ =~= p0);
            assert(is_distance(sub, root, root, 0));
        }
        let mut j: usize = 0;
        while j < cluster_e.len()
            invariant
                0 <= j <= cluster_e.len(),
                r == cluster_e@,
                root == r[0],
                cluster_set@ == r.to_set(),
                sub == induced(g, r.to_set()),
                g == adjacency(&self.neighbors),
                self.neighbors@.len() < u32::MAX,
                cluster_routable(g, r),
                forall|v: i64| #[trigger] paths@.contains_key(v) <==> (v == root || r.take(j as int).contains(v)),
                forall|v: i64| #[trigger] paths@.contains_key(v) ==> is_shortest_walk(sub, paths@[v]@, root, v),
            decreases cluster_e.len() - j,
        {
            let node = cluster_e[j];
            proof {
                assert(r.take(j + 1) =~= r.take(j as int).push(node));
            }
            if node != root {
                proof {
                    assert(reachable(induced(g, r.to_set()), r[0], r[j as int]));
                }
                let path = get_path(&self.neighbors, &cluster_set, root, node);
                paths.insert(node, path);
            }
            proof {
                assert forall|v: i64| #[trigger] paths@.contains_key(v) <==> (v == root || r.take(j + 1).contains(v)) by {
                    if r.take(j as int).contains(v) {
                        let t = choose|t: int| 0 <= t < j && r.take(j as int)[t] == v;
                        assert(r.take(j + 1)[t] == v);
                    }
                    let t1 = r.take(j + 1);
                    if t1.contains(v) && v != node {
                        let t = choose|t: int| 0 <= t < t1.len() && t1[t] == v;
                        assert(r.take(j as int)[t] == v);
                    }
                    if v == node {
                        assert(r.take(j + 1)[j as int] == v);
                    }
                }
            }
            j = j + 1;
        }
        let mut grey_to_arch: HashMap<usize, i64> = HashMap::new();
        let mut k: usize = 0;
        while k < cluster_e.len()
            invariant
                0 <= k <= cluster_e.len(),
                r == cluster_e@,
                grey_to_arch@ == enumeration(r.take(k as int)),
            decreases cluster_e.len() - k,
        {
            grey_to_arch.insert(k, cluster_e[k]);
            proof {
                assert(grey_to_arch@ =~= enumeration(r.take(k + 1)));
            }
            k = k + 1;
        }
        proof {
            assert(r.take(r.len() as int) =~= r);
            let pm = paths@.map_values(|p: Vec<i64>| p@);
            assert(pm.dom() =~= r.to_set()) by {
                assert forall|v: i64| pm.dom().contains(v) <==> r.to_set().contains(v) by {
                    if v == root {
                        assert(r.contains(r[0]));
                    }
                }
            }
            assert(is_cluster_paths(g, r, pm));
            assert(grey_to_arch@ == enumeration(r));
        }
        (paths, grey_to_arch)
    }
}

/// The qubit map after placing the cluster `r`: each node of `r` maps to its
/// position in `r`; other nodes keep what `old` gave them.
pub open spec fn placed_qubits(old: Map<i64, usize>, r: Seq<i64>) -> Map<i64, usize> {
    Map::new(
        |v: i64| old.contains_key(v) || r.contains(v),
        |v: i64|
            if r.contains(v) {
                (choose|i: int| 0 <= i < r.len() && r[i] == v) as usize
            } else {
                old[v]
            },
    )
}

/// `map_grey_qubits_to_arch_unitary_synth` can run on `m`: the cluster search
/// can run, and the cluster it returns has a node for the rotation qubit.
pub open spec fn placement_defined(m: &RoutedMultiplexer) -> bool {
    let g = adjacency(&m.neighbors);
    let nk = m.neighbors@.len();
    let n = m.num_qubits as int;
    &&& neighborhood_defined(m)
    &&& forall|dm: Map<i64, Map<i64, i64>>, r: Seq<i64>| #[trigger] cluster_outcome(&m.neighbors, n, dm, r)
        ==> 0 <= m.num_control < r.len()
}

/// `recompute_optimal_neighborhood` can run on `m`: every node that has a
/// path can be reached from the root inside the placed nodes.
pub open spec fn recompute_defined(m: &RoutedMultiplexer) -> bool {
    &&& m.neighbors@.len() < u32::MAX
    &&& forall|v: i64| #[trigger] m.optimal_neighborhood@.contains_key(v)
        ==> reachable(induced(adjacency(&m.neighbors), m.arch_qubits@), m.root, v)
}

/// `p` is `m` with its qubits placed: with `r` the cluster the search returns
/// on `m`'s map (see `cluster_outcome`) and `dm` its distance table, qubit `i`
/// sits on `r[i]`, every node of
/// `r` has a shortest path from `r[0]` inside the cluster, the rotation qubit's
/// node is the root and qubit 0's node the furthest node; the rest is kept.
pub open spec fn placed_from(m: &RoutedMultiplexer, p: &RoutedMultiplexer) -> bool {
    &&& exists|dm: Map<i64, Map<i64, i64>>, r: Seq<i64>|
        #[trigger] cluster_outcome(&m.neighbors, m.num_qubits as int, dm, r) && {
            &&& distance_table(&p.pairwise_dists) == dm
            &&& is_cluster_paths(adjacency(&m.neighbors), r, neighborhood_paths(p))
            &&& p.grey_to_arch_map@ == enumeration(r)
            &&& p.arch_to_grey_map@ == placed_qubits(m.arch_to_grey_map@, r)
            &&& p.arch_qubits@ == r.to_set()
            &&& p.root == r[m.num_control as int]
            &&& p.furthest_node == r[0]
            &&& r.len() <= usize::MAX
        }
    &&& p.num_angles == m.num_angles
    &&& p.num_qubits == m.num_qubits
    &&& p.num_control == m.num_control
    &&& p.neighbors@ == m.neighbors@
    &&& p.gray_code@ == m.gray_code@
    &&& p.gray_gate_queue@ == m.gray_gate_queue@
    &&& p.gray_state_queue@ == m.gray_state_queue@
    &&& p.gate_queue@ == m.gate_queue@
    &&& p.discovered_pp_terms@ == m.discovered_pp_terms@
    &&& p.state@ == m.state@
    &&& p.state_to_angle@ == m.state_to_angle@
}

impl RoutedMultiplexer {
    /// Places the qubits: finds the cluster and its paths (see
    /// `find_optimal_neighborhood_closest_cluster`), maps qubit `i` to the
    /// cluster's `i`-th node and back, takes the cluster's nodes as the
    /// placed nodes, the node of the rotation qubit `num_control` as the root
    /// and the node of qubit 0 as the furthest node.
    pub fn map_grey_qubits_to_arch_unitary_synth(&mut self)
        requires
            placement_defined(old(self)),
        ensures
            placed_from(old(self), final(self)),
    {
        let ghost m0 = *self;
        let ghost g = adjacency(&self.neighbors);
        let ghost n = self.num_qubits as int;
        let ghost nk = self.neighbors@.len();
        let (optimal_neighborhood, grey_to_arch_map) = self.find_optimal_neighborhood_closest_cluster();
        let ghost (dm, r) = choose|dm: Map<i64, Map<i64, i64>>, r: Seq<i64>|
            #[trigger] cluster_outcome(&m0.neighbors, n, dm, r) && {
                &&& distance_table(&self.pairwise_dists) == dm
                &&& is_cluster_paths(g, r, optimal_neighborhood@.map_values(|p: Vec<i64>| p@))
                &&& grey_to_arch_map@ == enumeration(r)
                &&& r.len() <= usize::MAX
            };
        proof {
            assert(cluster_routable(g, r));
            assert(0 <= self.num_control < r.len());
            assert(r.no_duplicates()) by {
                if uses_exact_search(nk, n, "auto"@) {
                    assert(is_exact_cluster(g, n, dm, r));
                } else {
                    assert(is_greedy_result(g, n, dm, r));
                }
            }
        }
        self.optimal_neighborhood = optimal_neighborhood;
        self.grey_to_arch_map = grey_to_arch_map;
        let qubits = crate::graph::map_keys(&self.grey_to_arch_map);
        let mut a2g: HashMap<i64, usize> = HashMap::new();
        std::mem::swap(&mut a2g, &mut self.arch_to_grey_map);
        let mut arch_qubits: HashSet<i64> = HashSet::new();
        let mut i: usize = 0;
        while i < qubits.len()
            invariant
                0 <= i <= qubits.len(),
                qubits@.to_set() == self.grey_to_arch_map@.dom(),
                qubits@.no_duplicates(),
                self.grey_to_arch_map@ == enumeration(r),
                r.no_duplicates(),
                r.len() <= usize::MAX,
                forall|v: i64| #[trigger] a2g@.contains_key(v)
                    <==> (m0.arch_to_grey_map@.contains_key(v) || exists|t: int| 0 <= t < i && r[qubits@[t] as int] == v),
                forall|t: int| 0 <= t < i ==> #[trigger] a2g@[r[qubits@[t] as int]] == qubits@[t],
                forall|v: i64| #[trigger] a2g@.contains_key(v) && !r.contains(v)
                    ==> a2g@[v] == m0.arch_to_grey_map@[v],
                forall|v: i64| #[trigger] arch_qubits@.contains(v) <==> exists|t: int| 0 <= t < i && r[qubits@[t] as int] == v,
            decreases qubits.len() - i,
        {
            let q = qubits[i];
            assert(qubits@.to_set().contains(q));
            let node = match self.grey_to_arch_map.get(&q) {
                Some(x) => *x,
                None => 0,
            };
            a2g.insert(node, q);
            arch_qubits.insert(node);
            proof {
                assert(r[q as int] == node);
                assert forall|t: int| 0 <= t < i + 1 implies #[trigger] a2g@[r[qubits@[t] as int]] == qubits@[t] by {
                    if t < i {
                        assert(qubits@[t] != qubits@[i as int]);
                        assert(qubits@.to_set().contains(qubits@[t]));
                        assert(r[qubits@[t] as int] != r[q as int]);
                    }
                }
                assert forall|v: i64| #[trigger] arch_qubits@.contains(v) <==> exists|t: int| 0 <= t < i + 1 && r[qubits@[t] as int] == v by {
                    if v == node {
                        assert(r[qubits@[i as int] as int] == v);
                    }
                }
                assert forall|v: i64| #[trigger] a2g@.contains_key(v)
                    <==> (m0.arch_to_grey_map@.contains_key(v) || exists|t: int| 0 <= t < i + 1 && r[qubits@[t] as int] == v) by {
                    if v == node {
                        assert(r[qubits@[i as int] as int] == v);
                    }
                }
                assert forall|v: i64| #[trigger] a2g@.contains_key(v) && !r.contains(v)
                    implies a2g@[v] == m0.arch_to_grey_map@[v] by {
                    assert(r[q as int] == node);
                }
            }
            i = i + 1;
        }
        proof {
            assert forall|v: i64| r.contains(v) <==> exists|t: int| 0 <= t < qubits@.len() && r[qubits@[t] as int] == v by {
                if r.contains(v) {
                    let x = choose|x: int| 0 <= x < r.len() && r[x] == v;
                    assert(self.grey_to_arch_map@.contains_key(x as usize));
                    assert(qubits@.to_set().contains(x as usize));
                    let t = choose|t: int| 0 <= t < qubits@.len() && qubits@[t] == x as usize;
                    assert(r[qubits@[t] as int] == v);
                }
                if exists|t: int| 0 <= t < qubits@.len() && r[qubits@[t] as int] == v {
                    let t = choose|t: int| 0 <= t < qubits@.len() && r[qubits@[t] as int] == v;
                    assert(qubits@.to_set().contains(qubits@[t]));
                    assert(r.contains(r[qubits@[t] as int]));
                }
            }
            assert(arch_qubits@ =~= r.to_set());
            assert(a2g@ =~= placed_qubits(m0.arch_to_grey_map@, r)) by {
                assert forall|v: i64| a2g@.contains_key(v) implies a2g@[v]
                    == placed_qubits(m0.arch_to_grey_map@, r)[v] by {
                    if r.contains(v) {
                        let t = choose|t: int| 0 <= t < qubits@.len() && r[qubits@[t] as int] == v;
                        let x = choose|x: int| 0 <= x < r.len() && r[x] == v;
                        assert(a2g@[r[qubits@[t] as int]] == qubits@[t]);
                        assert(qubits@.to_set().contains(qubits@[t]));
                        assert(x == qubits@[t] as int);
                    }
                }
            }
        }
        self.arch_to_grey_map = a2g;
        self.arch_qubits = arch_qubits;
        let nc = self.num_control as usize;
        self.root = match self.grey_to_arch_map.get(&nc) {
            Some(x) => *x,
            None => 0,
        };
        self.furthest_node = match self.grey_to_arch_map.get(&0) {
            Some(x) => *x,
            None => 0,
        };
        proof {
            assert(neighborhood_paths(self) =~= self.optimal_neighborhood@.map_values(|p: Vec<i64>| p@));
            assert(cluster_outcome(&m0.neighbors, n, dm, r));
        }
    }

    /// Replaces the path of every node that has one by a shortest path from
    /// the root that stays inside the placed nodes.
    pub fn recompute_optimal_neighborhood(&mut self)
        requires
            recompute_defined(old(self)),
        ensures
            neighborhood_paths(final(self)).dom() == neighborhood_paths(old(self)).dom(),
            forall|v: i64| #[trigger] neighborhood_paths(final(self)).contains_key(v) ==> is_shortest_walk(
                induced(adjacency(&old(self).neighbors), old(self).arch_qubits@),
                neighborhood_paths(final(self))[v],
                old(self).root,
                v,
            ),
            final(self).num_angles == old(self).num_angles,
            final(self).num_qubits == old(self).num_qubits,
            final(self).num_control == old(self).num_control,
            final(self).neighbors@ == old(self).neighbors@,
            final(self).root == old(self).root,
            final(self).furthest_node == old(self).furthest_node,
            final(self).arch_to_grey_map@ == old(self).arch_to_grey_map@,
            final(self).grey_to_arch_map@ == old(self).grey_to_arch_map@,
            final(self).pairwise_dists@ == old(self).pairwise_dists@,
            final(self).gray_code@ == old(self).gray_code@,
            final(self).gray_gate_queue@ == old(self).gray_gate_queue@,
            final(self).gray_state_queue@ == old(self).gray_state_queue@,
            final(self).arch_qubits@ == old(self).arch_qubits@,
            final(self).gate_queue@ == old(self).gate_queue@,
            final(self).discovered_pp_terms@ == old(self).discovered_pp_terms@,
            final(self).state@ == old(self).state@,
            final(self).state_to_angle@ == old(self).state_to_angle@,
    {
        let ghost sub = induced(adjacency(&self.neighbors), self.arch_qubits@);
        let nodes = crate::graph::map_keys(&self.optimal_neighborhood);
        let mut new_neighborhood: HashMap<i64, Vec<i64>> = HashMap::new();
        let mut i: usize = 0;
        while i < nodes.len()
            invariant
                0 <= i <= nodes.len(),
                nodes@.to_set() == self.optimal_neighborhood@.dom(),
                sub == induced(adjacency(&self.neighbors), self.arch_qubits@),
                recompute_defined(self),
                forall|v: i64| #[trigger] new_neighborhood@.contains_key(v) <==> nodes@.take(i as int).contains(v),
                forall|v: i64| #[trigger] new_neighborhood@.contains_key(v)
                    ==> is_shortest_walk(sub, new_neighborhood@[v]@, self.root, v),
            decreases nodes.len() - i,
        {
            let node = nodes[i];
            assert(nodes@.to_set().contains(node));
            let path = get_path(&self.neighbors, &self.arch_qubits, self.root, node);
            new_neighborhood.insert(node, path);
            proof {
                let t0 = nodes@.take(i as int);
                let t1 = nodes@.take(i + 1);
                assert(t1 =~= t0.push(node));
                assert forall|v: i64| #[trigger] new_neighborhood@.contains_key(v) <==> t1.contains(v) by {
                    if t0.contains(v) {
                        let t = choose|t: int| 0 <= t < t0.len() && t0[t] == v;
                        assert(t1[t] == v);
                    }
                    if t1.contains(v) && v != node {
                        let t = choose|t: int| 0 <= t < t1.len() && t1[t] == v;
                        assert(t0[t] == v);
                    }
                    if v == node {
                        assert(t1[i as int] == v);
                    }
                }
            }
            i = i + 1;
        }
        proof {
            assert(nodes@.take(nodes.len() as int) =~= nodes@);
        }
        self.optimal_neighborhood = new_neighborhood;
        proof {
            assert(neighborhood_paths(self).dom() =~= neighborhood_paths(old(self)).dom()) by {
                assert forall|v: i64| neighborhood_paths(self).dom().contains(v) <==> neighborhood_paths(old(self)).dom().contains(v) by {
                    if neighborhood_paths(old(self)).dom().contains(v) {
                        assert(nodes@.to_set().contains(v));
                    }
                }
            }
        }
    }
}

/// Placing the qubits of a multiplexer that had no placement makes the two
/// maps inverse to each other: every qubit's node maps back to the qubit, and
/// every placed node's qubit maps back to the node.
pub proof fn lemma_placement_inverse(m: &RoutedMultiplexer, p: &RoutedMultiplexer)
    requires
        placed_from(m, p),
        m.arch_to_grey_map@ == Map::<i64, usize>::empty(),
    ensures
        forall|q: usize| #[trigger] p.grey_to_arch_map@.contains_key(q) ==> {
            &&& p.arch_to_grey_map@.contains_key(p.grey_to_arch_map@[q])
            &&& p.arch_to_grey_map@[p.grey_to_arch_map@[q]] == q
        },
        forall|v: i64| #[trigger] p.arch_to_grey_map@.contains_key(v) ==> {
            &&& p.grey_to_arch_map@.contains_key(p.arch_to_grey_map@[v])
            &&& p.grey_to_arch_map@[p.arch_to_grey_map@[v]] == v
        },
{
    let g = adjacency(&m.neighbors);
    let n = m.num_qubits as int;
    let nk = m.neighbors@.len();
    let (dm, r) = choose|dm: Map<i64, Map<i64, i64>>, r: Seq<i64>|
        #[trigger] cluster_outcome(&m.neighbors, n, dm, r) && {
            &&& distance_table(&p.pairwise_dists) == dm
            &&& is_cluster_paths(g, r, neighborhood_paths(p))
            &&& p.grey_to_arch_map@ == enumeration(r)
            &&& p.arch_to_grey_map@ == placed_qubits(m.arch_to_grey_map@, r)
            &&& p.arch_qubits@ == r.to_set()
            &&& p.root == r[m.num_control as int]
            &&& p.furthest_node == r[0]
            &&& r.len() <= usize::MAX
        };
    assert(r.no_duplicates()) by {
        if uses_exact_search(nk, n, "auto"@) {
            assert(is_exact_cluster(g, n, dm, r));
        } else {
            assert(is_greedy_result(g, n, dm, r));
        }
    }
    assert forall|q: usize| #[trigger] p.grey_to_arch_map@.contains_key(q) implies {
        &&& p.arch_to_grey_map@.contains_key(p.grey_to_arch_map@[q])
        &&& p.arch_to_grey_map@[p.grey_to_arch_map@[q]] == q
    } by {
        let v = r[q as int];
        assert(r.contains(v));
        let i = choose|i: int| 0 <= i < r.len() && r[i] == v;
        assert(i == q as int);
    }
    assert forall|v: i64| #[trigger] p.arch_to_grey_map@.contains_key(v) implies {
        &&& p.grey_to_arch_map@.contains_key(p.arch_to_grey_map@[v])
        &&& p.grey_to_arch_map@[p.arch_to_grey_map@[v]] == v
    } by {
        assert(r.contains(v));
        let i = choose|i: int| 0 <= i < r.len() && r[i] == v;
        assert(p.arch_to_grey_map@[v] == i as usize);
    }
}

} // verus!
