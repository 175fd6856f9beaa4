//! Subgraphs of the coupling graph and shortest paths through them.
use std::collections::{HashMap, HashSet};
use vstd::prelude::*;
use pathfinding::prelude::dijkstra;
use crate::graph::{adjacency, is_distance, map_keys, reachable, set_members, succs, walk_between};

verus! {

broadcast use vstd::std_specs::hash::group_hash_axioms;

/// The subgraph of `g` on the nodes of `s`: the keys of `g` in `s`, each with
/// its successors that lie in `s`.
pub open spec fn induced(g: Map<i64, Set<i64>>, s: Set<i64>) -> Map<i64, Set<i64>> {
    Map::new(|k: i64| g.contains_key(k) && s.contains(k), |k: i64| g[k].intersect(s))
}

/// Taking the part on the same nodes twice changes nothing the second time.
pub proof fn lemma_induced_idempotent(g: Map<i64, Set<i64>>, s: Set<i64>)
    ensures
        induced(induced(g, s), s) == induced(g, s),
{
    let once = induced(g, s);
    let twice = induced(once, s);
    assert forall|k: i64| #[trigger] twice.contains_key(k) implies twice[k] =~= once[k] by {}
    assert(twice =~= once);
}

/// The part of `neighbors` on the nodes of `subset_nodes` (see `induced`).
pub fn get_subset_of_neighbors(neighbors: &HashMap<i64, HashSet<i64>>, subset_nodes: &HashSet<i64>) -> (subset: HashMap<
    i64,
    HashSet<i64>,
>)
    ensures
        adjacency(&subset) == induced(adjacency(neighbors), subset_nodes@),
{
    let ghost g = adjacency(neighbors);
    let ghost want = induced(g, subset_nodes@);
    let keys = map_keys(neighbors);
    let mut subset: HashMap<i64, HashSet<i64>> = HashMap::new();
    let mut i: usize = 0;
    while i < keys.len()
        invariant
            0 <= i <= keys.len(),
            g == adjacency(neighbors),
            want == induced(g, subset_nodes@),
            keys@.to_set() == neighbors@.dom(),
            forall|k: i64| #[trigger] subset@.contains_key(k)
                <==> (keys@.take(i as int).contains(k) && subset_nodes@.contains(k)),
            forall|k: i64| #[trigger] subset@.contains_key(k) ==> subset@[k]@ == want[k],
        decreases keys.len() - i,
    {
        let key = keys[i];
        proof {
            assert(keys@.to_set().contains(key));
            assert(keys@.take(i + 1) =~= keys@.take(i as int).push(key));
        }
        if subset_nodes.contains(&key) {
            let members = match neighbors.get(&key) {
                Some(s) => set_members(s),
                None => Vec::new(),
            };
            let mut kept: HashSet<i64> = HashSet::new();
            let mut j: usize = 0;
            while j < members.len()
                invariant
                    0 <= j <= members.len(),
                    members@.to_set() == g[key],
                    kept@ == members@.take(j as int).to_set().intersect(subset_nodes@),
                decreases members.len() - j,
            {
                let x = members[j];
                proof {
                    assert(members@.take(j + 1) =~= members@.take(j as int).push(x));
                    members@.take(j as int).lemma_push_to_set_commute(x);
                }
                if subset_nodes.contains(&x) {
                    kept.insert(x);
                }
                proof {
                    assert(kept@ =~= members@.take(j + 1).to_set().intersect(subset_nodes@));
                }
                j = j + 1;
            }
            proof {
                assert(members@.take(members.len() as int) =~= members@);
                assert(kept@ =~= want[key]);
            }
            subset.insert(key, kept);
        }
        proof {
            assert forall|k: i64| #[trigger] subset@.contains_key(k)
                <==> (keys@.take(i + 1).contains(k) && subset_nodes@.contains(k)) by {
                let t0 = keys@.take(i as int);
                let t1 = keys@.take(i + 1);
                if t1.contains(k) && k != key {
                    let m = choose|m: int| 0 <= m < t1.len() && t1[m] == k;
                    assert(t0[m] == k);
                }
                if t0.contains(k) {
                    let m = choose|m: int| 0 <= m < t0.len() && t0[m] == k;
                    assert(t1[m] == k);
                }
                if k == key {
                    assert(t1[i as int] == k);
                }
            }
        }
        i = i + 1;
    }
    proof {
        assert(keys@.take(keys.len() as int) =~= keys@);
        assert(adjacency(&subset) =~= want) by {
            assert forall|k: i64| #[trigger] adjacency(&subset).contains_key(k) <==> want.contains_key(k) by {
                if want.contains_key(k) {
                    assert(keys@.to_set().contains(k));
                }
            }
        }
    }
    subset
}

/// The successors of `node` in `graph`, each with a step cost of one.
fn unit_steps(graph: &HashMap<i64, HashSet<i64>>, node: i64) -> (steps: Vec<(i64, u32)>)
    ensures
        forall|i: int| 0 <= i < steps.len() ==> (#[trigger] steps@[i]).1 == 1,
        forall|w: i64| succs(adjacency(graph), node).contains(w)
            <==> exists|i: int| 0 <= i < steps.len() && (#[trigger] steps@[i]).0 == w,
{
    let members = match graph.get(&node) {
        Some(s) => set_members(s),
        None => Vec::new(),
    };
    let mut steps: Vec<(i64, u32)> = Vec::new();
    let mut i: usize = 0;
    while i < members.len()
        invariant
            0 <= i <= members.len(),
            members@.to_set() == succs(adjacency(graph), node),
            steps.len() == i,
            forall|j: int| 0 <= j < i ==> #[trigger] steps@[j] == (members@[j], 1u32),
        decreases members.len() - i,
    {
        steps.push((members[i], 1));
        i = i + 1;
    }
    proof {
        assert forall|w: i64| succs(adjacency(graph), node).contains(w)
            <==> exists|i: int| 0 <= i < steps.len() && (#[trigger] steps@[i]).0 == w by {
            if succs(adjacency(graph), node).contains(w) {
                assert(members@.to_set().contains(w));
                let j = choose|j: int| 0 <= j < members@.len() && members@[j] == w;
                assert(steps@[j].0 == w);
            }
            if exists|i: int| 0 <= i < steps.len() && (#[trigger] steps@[i]).0 == w {
                let j = choose|j: int| 0 <= j < steps.len() && (#[trigger] steps@[j]).0 == w;
                assert(members@[j] == w);
                assert(members@.to_set().contains(w));
            }
        }
    }
    steps
}

/// Whether the search has reached its goal.
fn is_goal(node: i64, goal: i64) -> (r: bool)
    ensures
        r == (node == goal),
{
    node == goal
}

/// `pathfinding::directed::dijkstra::dijkstra` from `source` to `target` over
/// `graph`, every edge costing one; the path without its cost.
///
/// Trusted: the contract says what the crate documents: `None` when no walk
/// leads from `source` to `target`, and otherwise a shortest path, starting at
/// `source` and ending at `target`. Costs are summed in `u32`, which cannot
/// overflow while a shortest path has fewer edges than the graph has keys,
/// hence the bound on the number of keys. Which of several shortest paths it
/// returns is left unsaid: that depends on the order of the successor sets.
#[verifier::external_body]
fn dijkstra_unit_path(graph: &HashMap<i64, HashSet<i64>>, source: i64, target: i64) -> (path: Option<Vec<i64>>)
    requires
        graph@.len() < u32::MAX,
    ensures
        path is None <==> !reachable(adjacency(graph), source, target),
        path matches Some(p) ==> walk_between(adjacency(graph), p@, source, target)
            && is_distance(adjacency(graph), source, target, p@.len() - 1),
{
    dijkstra(&source, |n: &i64| unit_steps(graph, *n), |n: &i64| is_goal(*n, target)).map(|found| found.0)
}

/// A shortest path from `source` to `target` that only passes through nodes of
/// `subset_nodes`.
pub fn get_path(neighbors: &HashMap<i64, HashSet<i64>>, subset_nodes: &HashSet<i64>, source: i64, target: i64) -> (path: Vec<i64>)
    requires
        neighbors@.len() < u32::MAX,
        reachable(induced(adjacency(neighbors), subset_nodes@), source, target),
    ensures
        walk_between(induced(adjacency(neighbors), subset_nodes@), path@, source, target),
        is_distance(induced(adjacency(neighbors), subset_nodes@), source, target, path@.len() - 1),
{
    let new_neighbors = get_subset_of_neighbors(neighbors, subset_nodes);
    proof {
        let sub = adjacency(&new_neighbors);
        assert(sub.dom() =~= new_neighbors@.dom());
        assert(adjacency(neighbors).dom() =~= neighbors@.dom());
        assert(sub.dom().subset_of(adjacency(neighbors).dom()));
        vstd::set_lib::lemma_len_subset(sub.dom(), adjacency(neighbors).dom());
    }
    match dijkstra_unit_path(&new_neighbors, source, target) {
        Some(p) => p,
        None => Vec::new(),
    }
}

} // verus!
