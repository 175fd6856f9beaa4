//! Distances in a coupling graph and the search for a tight cluster of nodes.
use std::collections::{HashMap, HashSet, VecDeque};
use itertools::Itertools;
use vstd::prelude::*;
use crate::graph::{
    adjacency, distance_table, finite_graph, is_distance, is_distance_map, lemma_node_universe_finite, lemma_walk_exit,
    lemma_walk_prefix, lemma_walk_push, key_order, map_keys, node_universe, reachable, set_members, succs,
    walk_between,
};

verus! {

broadcast use vstd::std_specs::hash::group_hash_axioms;

/// Each key's successors as a vector.
fn adjacency_lists(neighbors: &HashMap<i64, HashSet<i64>>) -> (adj: HashMap<i64, Vec<i64>>)
    ensures
        adj@.dom() == neighbors@.dom(),
        forall|k: i64| #[trigger] adj@.contains_key(k) ==> adj@[k]@.to_set() == adjacency(neighbors)[k],
{
    let keys = map_keys(neighbors);
    let mut adj: HashMap<i64, Vec<i64>> = HashMap::new();
    let mut i: usize = 0;
    while i < keys.len()
        invariant
            0 <= i <= keys.len(),
            keys@.to_set() == neighbors@.dom(),
            keys@.no_duplicates(),
            adj@.dom() == keys@.take(i as int).to_set(),
            forall|k: i64| #[trigger] adj@.contains_key(k) ==> adj@[k]@.to_set() == adjacency(neighbors)[k],
        decreases keys.len() - i,
    {
        let k = keys[i];
        assert(keys@.to_set().contains(k));
        match neighbors.get(&k) {
            Some(s) => {
                let members = set_members(s);
                adj.insert(k, members);
            },
            None => {},
        }
        proof {
            assert(keys@.take(i + 1) =~= keys@.take(i as int).push(k));
            keys@.take(i as int).lemma_push_to_set_commute(k);
            assert(adj@.dom() =~= keys@.take(i + 1).to_set());
        }
        i = i + 1;
    }
    proof {
        assert(keys@.take(keys.len() as int) =~= keys@);
    }
    adj
}

/// A walk to a node outside the explored region passes through the frontier,
/// so it is at least one edge longer than the lowest frontier level.
proof fn lemma_frontier_bound(
    g: Map<i64, Set<i64>>,
    s: i64,
    dm: Map<i64, i64>,
    closed: Set<i64>,
    lo: int,
    t: i64,
    p: Seq<i64>,
)
    requires
        dm.contains_key(s),
        forall|v: i64| #[trigger] dm.contains_key(v) ==> is_distance(g, s, v, dm[v] as int),
        forall|v: i64| #[trigger] dm.contains_key(v) && !closed.contains(v) ==> dm[v] >= lo,
        forall|v: i64, w: i64|
            #![trigger closed.contains(v), succs(g, v).contains(w)]
            closed.contains(v) && succs(g, v).contains(w) ==> dm.contains_key(w),
        !dm.contains_key(t),
        walk_between(g, p, s, t),
    ensures
        p.len() >= lo + 2,
{
    let i = lemma_walk_exit(p, dm.dom());
    let v = p[i];
    assert(succs(g, p[i]).contains(p[i + 1]));
    assert(!closed.contains(v));
    lemma_walk_prefix(g, p, s, t, i + 1);
    assert(walk_between(g, p.take(i + 1), s, v));
}

/// Breadth-first distances from `source`: every node reachable from `source`
/// mapped to the fewest edges on a walk to it.
///
/// Distances are `i64`, and no distance exceeds the number of keys, so the
/// map may hold fewer than `i64::MAX` keys, which no map in memory reaches.
pub fn bfs_distances(source: i64, neighbors: &HashMap<i64, HashSet<i64>>) -> (dist: HashMap<i64, i64>)
    requires
        neighbors@.len() < i64::MAX,
    ensures
        is_distance_map(adjacency(neighbors), source, dist@),
{
    let adj = adjacency_lists(neighbors);
    let ghost g = adjacency(neighbors);
    proof {
        assert(g.dom() =~= neighbors@.dom());
        assert(finite_graph(g)) by {
            assert forall|k: i64| #[trigger] g.contains_key(k) implies g[k].finite() by {
                assert(adj@.contains_key(k));
                vstd::seq_lib::seq_to_set_is_finite(adj@[k]@);
            }
        }
        lemma_node_universe_finite(g);
    }
    let ghost univ = node_universe(g).insert(source);
    let mut dist: HashMap<i64, i64> = HashMap::new();
    dist.insert(source, 0);
    let mut queue: VecDeque<i64> = VecDeque::new();
    queue.push_back(source);
    let ghost mut popped: Set<i64> = Set::empty();
    let ghost mut lvl: int = 0;
    proof {
        assert forall|v: i64| queue@.contains(v) <==> v == source by {
            if v == source {
                assert(queue@[0] == source);
            }
        }
        assert(is_distance(g, source, source, 0)) by {
            assert(walk_between(g, seq![source], source, source));
        }
    }
    while queue.len() > 0
        invariant
            g == adjacency(neighbors),
            g.dom().len() < i64::MAX,
            adj@.dom() == g.dom(),
            forall|k: i64| #[trigger] adj@.contains_key(k) ==> adj@[k]@.to_set() == g[k],
            univ.finite(),
            univ == node_universe(g).insert(source),
            popped.finite(),
            popped.subset_of(univ),
            dist@.dom().subset_of(univ),
            dist@.contains_key(source),
            forall|v: i64| #[trigger] dist@.contains_key(v) <==> (popped.contains(v) || queue@.contains(v)),
            forall|i: int| 0 <= i < queue@.len() ==> !popped.contains(#[trigger] queue@[i]),
            queue@.no_duplicates(),
            forall|v: i64| #[trigger] dist@.contains_key(v) ==> is_distance(g, source, v, dist@[v] as int),
            forall|i: int| 0 <= i < queue@.len() ==> lvl <= #[trigger] dist@[queue@[i]] <= lvl + 1,
            forall|i: int, j: int| 0 <= i <= j < queue@.len() ==> dist@[queue@[i]] <= dist@[queue@[j]],
            forall|v: i64, w: i64|
                #![trigger popped.contains(v), succs(g, v).contains(w)]
                popped.contains(v) && succs(g, v).contains(w) ==> dist@.contains_key(w),
            forall|v: i64| #[trigger] dist@.contains_key(v) ==> 0 <= dist@[v] <= popped.intersect(g.dom()).len(),
        decreases univ.len() - popped.len(),
    {
        let ghost q_before = queue@;
        let node = match queue.pop_front() {
            Some(n) => n,
            None => { return dist; },
        };
        proof {
            assert(q_before[0] == node && queue@ =~= q_before.drop_first());
            assert forall|v: i64| q_before.contains(v) <==> (v == node || queue@.contains(v)) by {
                if q_before.contains(v) && v != node {
                    let k = choose|k: int| 0 <= k < q_before.len() && q_before[k] == v;
                    assert(queue@[k - 1] == v);
                }
                if queue@.contains(v) {
                    let k = choose|k: int| 0 <= k < queue@.len() && queue@[k] == v;
                    assert(q_before[k + 1] == v);
                }
            }
        }
        assert(dist@.contains_key(node));
        let d = match dist.get(&node) {
            Some(x) => *x,
            None => 0,
        };
        let ghost old_popped = popped;
        proof {
            popped = popped.insert(node);
            lvl = d as int;
            vstd::set_lib::lemma_len_subset(popped, univ);
        }
        match adj.get(&node) {
            None => {
                proof {
                    assert(popped.intersect(g.dom()) =~= old_popped.intersect(g.dom()));
                }
            },
            Some(nbrs) => {
                proof {
                    assert(g.contains_key(node));
                    assert(popped.intersect(g.dom()) =~= old_popped.intersect(g.dom()).insert(node));
                    vstd::set_lib::lemma_len_subset(popped.intersect(g.dom()), g.dom());
                }
                let mut i: usize = 0;
                while i < nbrs.len()
                    invariant
                        0 <= i <= nbrs.len(),
                        nbrs@.to_set() == g[node],
                        g.contains_key(node),
                        g.dom().len() < i64::MAX,
                        popped.intersect(g.dom()).len() <= g.dom().len(),
                        univ.finite(),
                        univ == node_universe(g).insert(source),
                        dist@.dom().subset_of(univ),
                        popped.contains(node),
                        !queue@.contains(node),
                        dist@.contains_key(node),
                        dist@[node] == d,
                        d == lvl,
                        dist@.contains_key(source),
                        forall|v: i64| #[trigger] dist@.contains_key(v) <==> (popped.contains(v) || queue@.contains(v)),
                        forall|k: int| 0 <= k < queue@.len() ==> !popped.contains(#[trigger] queue@[k]),
                        queue@.no_duplicates(),
                        forall|v: i64| #[trigger] dist@.contains_key(v) ==> is_distance(g, source, v, dist@[v] as int),
                        forall|k: int| 0 <= k < queue@.len() ==> lvl <= #[trigger] dist@[queue@[k]] <= lvl + 1,
                        forall|k: int, j: int| 0 <= k <= j < queue@.len() ==> dist@[queue@[k]] <= dist@[queue@[j]],
                        forall|v: i64, w: i64|
                            #![trigger popped.contains(v), succs(g, v).contains(w)]
                            popped.contains(v) && v != node && succs(g, v).contains(w) ==> dist@.contains_key(w),
                        forall|j: int| 0 <= j < i ==> dist@.contains_key(#[trigger] nbrs@[j]),
                        forall|v: i64| #[trigger] dist@.contains_key(v) ==> 0 <= dist@[v] <= popped.intersect(g.dom()).len(),
                        d + 1 <= popped.intersect(g.dom()).len(),
                    decreases nbrs.len() - i,
                {
                    let nb = nbrs[i];
                    assert(nbrs@.to_set().contains(nb));
                    assert(succs(g, node).contains(nb));
                    if !dist.contains_key(&nb) {
                        proof {
                            assert(univ.contains(nb)) by {
                                assert(g[node].contains(nb));
                            }
                            let pw = choose|pw: Seq<i64>| #[trigger] walk_between(g, pw, source, node) && pw.len() == d + 1;
                            lemma_walk_push(g, pw, source, node, nb);
                            assert(walk_between(g, pw.push(nb), source, nb) && pw.push(nb).len() == d + 2);
                            assert forall|p: Seq<i64>| #[trigger] walk_between(g, p, source, nb) implies p.len() >= d + 2 by {
                                let closed = popped.remove(node);
                                assert forall|v: i64| #[trigger] dist@.contains_key(v) && !closed.contains(v) implies dist@[v] >= lvl by {
                                    if v != node {
                                        let k = choose|k: int| 0 <= k < queue@.len() && queue@[k] == v;
                                        assert(lvl <= dist@[queue@[k]]);
                                    }
                                }
                                lemma_frontier_bound(g, source, dist@, closed, lvl, nb, p);
                            }
                        }
                        let ghost q_pre = queue@;
                        dist.insert(nb, d + 1);
                        queue.push_back(nb);
                        proof {
                            assert forall|v: i64| queue@.contains(v) <==> (v == nb || q_pre.contains(v)) by {
                                if q_pre.contains(v) {
                                    let k = choose|k: int| 0 <= k < q_pre.len() && q_pre[k] == v;
                                    assert(queue@[k] == v);
                                }
                                if v == nb {
                                    assert(queue@[q_pre.len() as int] == v);
                                }
                                if queue@.contains(v) && v != nb {
                                    let k = choose|k: int| 0 <= k < queue@.len() && queue@[k] == v;
                                    assert(q_pre[k] == v);
                                }
                            }
                            assert(dist@.contains_key(nbrs@[i as int]));
                        }
                    }
                    i = i + 1;
                }
            },
        }
        proof {
            assert forall|v: i64, w: i64|
                #![trigger popped.contains(v), succs(g, v).contains(w)]
                popped.contains(v) && succs(g, v).contains(w) implies dist@.contains_key(w) by {
                if v == node {
                    if g.contains_key(node) {
                        assert(adj@.contains_key(node));
                    }
                }
            }
        }
    }
    proof {
        assert forall|t: i64| reachable(g, source, t) implies dist@.contains_key(t) by {
            if !dist@.contains_key(t) {
                let p = choose|p: Seq<i64>| #[trigger] walk_between(g, p, source, t);
                lemma_frontier_bound(g, source, dist@, popped, p.len() as int, t, p);
            }
        }
        assert forall|t: i64| dist@.contains_key(t) implies reachable(g, source, t) by {
            assert(is_distance(g, source, t, dist@[t] as int));
        }
    }
    dist
}


/// Breadth-first distances from every key of `neighbors` (with the bound on
/// the number of keys of `bfs_distances`).
pub fn all_pairs_distances(neighbors: &HashMap<i64, HashSet<i64>>) -> (dists: HashMap<i64, HashMap<i64, i64>>)
    requires
        neighbors@.len() < i64::MAX,
    ensures
        dists@.dom() == neighbors@.dom(),
        forall|u: i64| #[trigger] dists@.contains_key(u)
            ==> is_distance_map(adjacency(neighbors), u, distance_table(&dists)[u]),
{
    let keys = map_keys(neighbors);
    let mut dists: HashMap<i64, HashMap<i64, i64>> = HashMap::new();
    let mut i: usize = 0;
    while i < keys.len()
        invariant
            0 <= i <= keys.len(),
            neighbors@.len() < i64::MAX,
            keys@.to_set() == neighbors@.dom(),
            dists@.dom() == keys@.take(i as int).to_set(),
            forall|u: i64| #[trigger] dists@.contains_key(u)
                ==> is_distance_map(adjacency(neighbors), u, dists@[u]@),
        decreases keys.len() - i,
    {
        let k = keys[i];
        let from_k = bfs_distances(k, neighbors);
        dists.insert(k, from_k);
        proof {
            assert(keys@.take(i + 1) =~= keys@.take(i as int).push(k));
            keys@.take(i as int).lemma_push_to_set_commute(k);
        }
        i = i + 1;
    }
    proof {
        assert(keys@.take(keys.len() as int) =~= keys@);
    }
    dists
}

/// The table's distance from `a` to `b`, or `i64::MAX` when it holds none.
pub open spec fn table_entry(dm: Map<i64, Map<i64, i64>>, a: i64, b: i64) -> int {
    if dm.contains_key(a) && dm[a].contains_key(b) {
        dm[a][b] as int
    } else {
        i64::MAX as int
    }
}

/// The sum of the table's distances from `b` to each node of `xs`.
pub open spec fn sum_to(dm: Map<i64, Map<i64, i64>>, b: i64, xs: Seq<i64>) -> int
    decreases xs.len(),
{
    if xs.len() == 0 {
        0
    } else {
        sum_to(dm, b, xs.drop_last()) + table_entry(dm, b, xs.last())
    }
}

/// The sum of the table's distances from `a` to each node of `xs` other than `a`.
pub open spec fn sum_to_others(dm: Map<i64, Map<i64, i64>>, a: i64, xs: Seq<i64>) -> int
    decreases xs.len(),
{
    if xs.len() == 0 {
        0
    } else {
        sum_to_others(dm, a, xs.drop_last()) + if xs.last() == a {
            0
        } else {
            table_entry(dm, a, xs.last())
        }
    }
}

/// The sum of the table's distances from `c[i]` to `c[k]` for `i < k < j`.
pub open spec fn row_cost(dm: Map<i64, Map<i64, i64>>, c: Seq<i64>, i: int, j: int) -> int
    decreases j - i,
{
    if j <= i + 1 {
        0
    } else {
        row_cost(dm, c, i, j - 1) + table_entry(dm, c[i], c[j - 1])
    }
}

/// The sum of the table's distances from `c[i]` to every later `c[k]`, over `i < m`.
pub open spec fn pairs_cost(dm: Map<i64, Map<i64, i64>>, c: Seq<i64>, m: int) -> int
    decreases m,
{
    if m <= 0 {
        0
    } else {
        pairs_cost(dm, c, m - 1) + row_cost(dm, c, m - 1, c.len() as int)
    }
}

/// The cost of a cluster: the table's distances summed over all ordered pairs
/// `(c[i], c[j])` with `i < j`.
pub open spec fn cluster_total(dm: Map<i64, Map<i64, i64>>, c: Seq<i64>) -> int {
    pairs_cost(dm, c, c.len() as int)
}

/// Every pair `(c[i], c[j])` with `i < j` has a table entry below `i64::MAX`.
pub open spec fn cluster_connected(dm: Map<i64, Map<i64, i64>>, c: Seq<i64>) -> bool {
    forall|i: int, j: int| 0 <= i < j < c.len() ==> #[trigger] table_entry(dm, c[i], c[j]) != i64::MAX
}

proof fn lemma_sum_fits(k: int)
    requires
        0 <= k <= 0xffff_ffff_ffff_ffff,
    ensures
        0x7fff_ffff_ffff_ffff * k <= 0x7fff_ffff_ffff_ffff_ffff_ffff_ffff_ffff - 0x7fff_ffff_ffff_ffff,
        -0x8000_0000_0000_0000 * k >= -0x8000_0000_0000_0000_0000_0000_0000_0000 + 0x8000_0000_0000_0000,
{
    assert(0x7fff_ffff_ffff_ffff * k <= 0x7fff_ffff_ffff_ffff * 0xffff_ffff_ffff_ffff) by (nonlinear_arith)
        requires 0 <= k <= 0xffff_ffff_ffff_ffff;
    assert(-0x8000_0000_0000_0000 * k >= -0x8000_0000_0000_0000 * 0xffff_ffff_ffff_ffff) by (nonlinear_arith)
        requires 0 <= k <= 0xffff_ffff_ffff_ffff;
}

proof fn lemma_step_bound(acc: int, e: int, k: int)
    requires
        0 <= k,
        -0x8000_0000_0000_0000 * k <= acc <= 0x7fff_ffff_ffff_ffff * k,
        -0x8000_0000_0000_0000 <= e <= 0x7fff_ffff_ffff_ffff,
    ensures
        -0x8000_0000_0000_0000 * (k + 1) <= acc + e <= 0x7fff_ffff_ffff_ffff * (k + 1),
{
    assert(-0x8000_0000_0000_0000 * (k + 1) == -0x8000_0000_0000_0000 * k - 0x8000_0000_0000_0000) by (nonlinear_arith);
    assert(0x7fff_ffff_ffff_ffff * (k + 1) == 0x7fff_ffff_ffff_ffff * k + 0x7fff_ffff_ffff_ffff) by (nonlinear_arith);
}

/// The table's distance from `a` to `b`, or `i64::MAX` when it holds none.
fn lookup_distance(dist: &HashMap<i64, HashMap<i64, i64>>, a: i64, b: i64) -> (r: i64)
    ensures
        r == table_entry(distance_table(dist), a, b),
{
    match dist.get(&a) {
        Some(row) => match row.get(&b) {
            Some(x) => *x,
            None => i64::MAX,
        },
        None => i64::MAX,
    }
}

/// The cost of a cluster, or `None` when some pair `(nodes[i], nodes[j])` with
/// `i < j` has no distance below `i64::MAX` in the table.
///
/// The sum is exact, in an `i128`. The bound on the number of nodes is where
/// that representation ends: with at most `u32::MAX` nodes there are fewer
/// than `2^64` pairs, so a sum of `i64` distances over them stays within an
/// `i128`; for longer lists it may not.
pub fn cluster_cost(nodes: &Vec<i64>, dist: &HashMap<i64, HashMap<i64, i64>>) -> (cost: Option<i128>)
    requires
        nodes.len() <= u32::MAX,
    ensures
        cost is None <==> !cluster_connected(distance_table(dist), nodes@),
        cost matches Some(c) ==> c == cluster_total(distance_table(dist), nodes@),
{
    let ghost dm = distance_table(dist);
    let n = nodes.len();
    let mut total: i128 = 0;
    let mut i: usize = 0;
    proof {
        assert((n as int) * (n as int) <= 0xffff_ffff_ffff_ffff) by (nonlinear_arith)
            requires n <= 0xffff_ffff;
    }
    while i < n
        invariant
            0 <= i <= n,
            n == nodes.len(),
            (n as int) * (n as int) <= 0xffff_ffff_ffff_ffff,
            dm == distance_table(dist),
            total == pairs_cost(dm, nodes@, i as int),
            -0x8000_0000_0000_0000 * ((i as int) * (n as int)) <= total <= 0x7fff_ffff_ffff_ffff * ((i as int) * (n as int)),
            forall|a: int, b: int| 0 <= a < i && a < b < n ==> #[trigger] table_entry(dm, nodes@[a], nodes@[b]) != i64::MAX,
        decreases n - i,
    {
        let mut j: usize = i + 1;
        let mut row: i128 = 0;
        let ghost base = total;
        proof {
            assert((i as int) * (n as int) + (n as int) <= (n as int) * (n as int)) by (nonlinear_arith)
                requires i < n;
        }
        while j < n
            invariant
                i < n,
                i + 1 <= j <= n,
                n == nodes.len(),
                (i as int) * (n as int) + (n as int) <= (n as int) * (n as int),
                (n as int) * (n as int) <= 0xffff_ffff_ffff_ffff,
                dm == distance_table(dist),
                base == pairs_cost(dm, nodes@, i as int),
                -0x8000_0000_0000_0000 * ((i as int) * (n as int)) <= base <= 0x7fff_ffff_ffff_ffff * ((i as int) * (n as int)),
                row == row_cost(dm, nodes@, i as int, j as int),
                -0x8000_0000_0000_0000 * (j - i - 1) <= row <= 0x7fff_ffff_ffff_ffff * (j - i - 1),
                forall|b: int| i < b < j ==> #[trigger] table_entry(dm, nodes@[i as int], nodes@[b]) != i64::MAX,
            decreases n - j,
        {
            let d = lookup_distance(dist, nodes[i], nodes[j]);
            if d == i64::MAX {
                return None;
            }
            proof {
                lemma_step_bound(row as int, d as int, j - i - 1);
                lemma_sum_fits(j - i);
            }
            row = row + d as i128;
            j = j + 1;
        }
        proof {
            lemma_sum_fits((i as int) * (n as int) + (n as int));
            assert(-0x8000_0000_0000_0000 * ((i as int) * (n as int)) + -0x8000_0000_0000_0000 * (n - i - 1)
                >= -0x8000_0000_0000_0000 * ((i as int) * (n as int) + (n as int))) by (nonlinear_arith)
                requires i < n;
            assert(0x7fff_ffff_ffff_ffff * ((i as int) * (n as int)) + 0x7fff_ffff_ffff_ffff * (n - i - 1)
                <= 0x7fff_ffff_ffff_ffff * ((i as int) * (n as int) + (n as int))) by (nonlinear_arith)
                requires i < n;
            assert(((i + 1) as int) * (n as int) == (i as int) * (n as int) + (n as int)) by (nonlinear_arith);
        }
        total = total + row;
        i = i + 1;
    }
    Some(total)
}


/// `(c1, n1)` comes strictly before `(c2, n2)` in lexicographic order.
pub open spec fn key_before(c1: int, n1: i64, c2: int, n2: i64) -> bool {
    c1 < c2 || (c1 == c2 && n1 < n2)
}

/// `r` orders the distinct nodes of `cluster` from its centre outwards: `r[0]`
/// has the least summed distance to the rest of `cluster`, and each later node
/// has the least summed distance to the nodes before it, ties going to the
/// smaller node.
pub open spec fn is_center_order(dm: Map<i64, Map<i64, i64>>, cluster: Seq<i64>, r: Seq<i64>) -> bool {
    &&& r.len() >= 1
    &&& r.no_duplicates()
    &&& r.to_set() == cluster.to_set()
    &&& forall|b: i64| #[trigger] cluster.contains(b) && b != r[0]
        ==> key_before(sum_to_others(dm, r[0], cluster), r[0], sum_to_others(dm, b, cluster), b)
    &&& forall|i: int, b: i64|
        #![trigger sum_to(dm, b, r.take(i))]
        1 <= i < r.len() && cluster.contains(b) && !r.take(i).contains(b) && b != r[i]
        ==> key_before(sum_to(dm, r[i], r.take(i)), r[i], sum_to(dm, b, r.take(i)), b)
}

/// The distinct members of `xs`, in order of first appearance.
fn distinct_members(xs: &Vec<i64>) -> (r: Vec<i64>)
    ensures
        r@.no_duplicates(),
        r@.to_set() == xs@.to_set(),
{
    let mut r: Vec<i64> = Vec::new();
    let mut i: usize = 0;
    while i < xs.len()
        invariant
            0 <= i <= xs.len(),
            r@.no_duplicates(),
            r@.to_set() == xs@.take(i as int).to_set(),
        decreases xs.len() - i,
    {
        let x = xs[i];
        let mut found = false;
        let mut k: usize = 0;
        while k < r.len()
            invariant
                0 <= k <= r.len(),
                found <==> exists|m: int| 0 <= m < k && r@[m] == x,
            decreases r.len() - k,
        {
            if r[k] == x {
                found = true;
            }
            k = k + 1;
        }
        proof {
            assert(xs@.take(i + 1) =~= xs@.take(i as int).push(x));
            xs@.take(i as int).lemma_push_to_set_commute(x);
        }
        if !found {
            proof {
                r@.lemma_push_to_set_commute(x);
                assert(!r@.contains(x));
            }
            r.push(x);
        } else {
            proof {
                assert(r@.contains(x));
                assert(r@.to_set().insert(x) =~= r@.to_set());
            }
        }
        i = i + 1;
    }
    proof {
        assert(xs@.take(xs.len() as int) =~= xs@);
    }
    r
}

/// The summed table distances from `b` to each node of `xs`.
fn sum_distances_to(dist: &HashMap<i64, HashMap<i64, i64>>, b: i64, xs: &Vec<i64>) -> (total: i128)
    ensures
        total == sum_to(distance_table(dist), b, xs@),
{
    let ghost dm = distance_table(dist);
    let mut total: i128 = 0;
    let mut i: usize = 0;
    while i < xs.len()
        invariant
            0 <= i <= xs.len(),
            dm == distance_table(dist),
            total == sum_to(dm, b, xs@.take(i as int)),
            -0x8000_0000_0000_0000 * (i as int) <= total <= 0x7fff_ffff_ffff_ffff * (i as int),
        decreases xs.len() - i,
    {
        let d = lookup_distance(dist, b, xs[i]);
        proof {
            assert(xs@.take(i + 1).drop_last() =~= xs@.take(i as int));
            lemma_step_bound(total as int, d as int, i as int);
            lemma_sum_fits(i + 1);
        }
        total = total + d as i128;
        i = i + 1;
    }
    proof {
        assert(xs@.take(xs.len() as int) =~= xs@);
    }
    total
}

/// The summed table distances from `a` to each node of `xs` other than `a`.
fn sum_distances_to_others(dist: &HashMap<i64, HashMap<i64, i64>>, a: i64, xs: &Vec<i64>) -> (total: i128)
    ensures
        total == sum_to_others(distance_table(dist), a, xs@),
{
    let ghost dm = distance_table(dist);
    let mut total: i128 = 0;
    let mut i: usize = 0;
    while i < xs.len()
        invariant
            0 <= i <= xs.len(),
            dm == distance_table(dist),
            total == sum_to_others(dm, a, xs@.take(i as int)),
            -0x8000_0000_0000_0000 * (i as int) <= total <= 0x7fff_ffff_ffff_ffff * (i as int),
        decreases xs.len() - i,
    {
        let y = xs[i];
        let d: i64 = if y == a { 0 } else { lookup_distance(dist, a, y) };
        proof {
            assert(xs@.take(i + 1).drop_last() =~= xs@.take(i as int));
            lemma_step_bound(total as int, d as int, i as int);
            lemma_sum_fits(i + 1);
        }
        total = total + d as i128;
        i = i + 1;
    }
    proof {
        assert(xs@.take(xs.len() as int) =~= xs@);
    }
    total
}

/// The position of the least `(costs[k], nodes[k])` in lexicographic order.
fn position_of_least(nodes: &Vec<i64>, costs: &Vec<i128>) -> (m: usize)
    requires
        nodes.len() >= 1,
        nodes.len() == costs.len(),
        nodes@.no_duplicates(),
    ensures
        0 <= m < nodes.len(),
        forall|k: int| 0 <= k < nodes.len() && k != m
            ==> #[trigger] key_before(costs@[m as int] as int, nodes@[m as int], costs@[k] as int, nodes@[k]),
{
    let mut m: usize = 0;
    let mut k: usize = 1;
    while k < nodes.len()
        invariant
            1 <= k <= nodes.len(),
            0 <= m < k,
            nodes.len() == costs.len(),
            nodes@.no_duplicates(),
            forall|j: int| 0 <= j < k && j != m
                ==> #[trigger] key_before(costs@[m as int] as int, nodes@[m as int], costs@[j] as int, nodes@[j]),
        decreases nodes.len() - k,
    {
        if costs[k] < costs[m] || (costs[k] == costs[m] && nodes[k] < nodes[m]) {
            proof {
                let m0 = m as int;
                assert forall|j: int| 0 <= j < k + 1 && j != k implies #[trigger] key_before(
                    costs@[k as int] as int,
                    nodes@[k as int],
                    costs@[j] as int,
                    nodes@[j],
                ) by {
                    if j != m0 {
                        assert(key_before(costs@[m0] as int, nodes@[m0], costs@[j] as int, nodes@[j]));
                    }
                }
            }
            m = k;
        } else {
            proof {
                assert(nodes@[k as int] != nodes@[m as int]);
            }
        }
        k = k + 1;
    }
    m
}

/// Orders the distinct nodes of `cluster` from its centre outwards (see
/// `is_center_order`).
pub fn order_cluster(cluster: &Vec<i64>, dist: &HashMap<i64, HashMap<i64, i64>>) -> (ordered: Vec<i64>)
    requires
        cluster.len() >= 1,
        forall|i: int| 0 <= i < cluster.len() ==> dist@.contains_key(#[trigger] cluster@[i]),
    ensures
        is_center_order(distance_table(dist), cluster@, ordered@),
{
    let ghost dm = distance_table(dist);
    let mut remaining = distinct_members(cluster);
    proof {
        assert(cluster@.to_set().contains(cluster@[0]));
    }
    // The centre: least summed distance to the rest of the cluster.
    let mut costs: Vec<i128> = Vec::new();
    let mut k: usize = 0;
    while k < remaining.len()
        invariant
            0 <= k <= remaining.len(),
            costs.len() == k,
            dm == distance_table(dist),
            forall|j: int| 0 <= j < k ==> #[trigger] costs@[j] == sum_to_others(dm, remaining@[j], cluster@),
        decreases remaining.len() - k,
    {
        let c = sum_distances_to_others(dist, remaining[k], cluster);
        costs.push(c);
        k = k + 1;
    }
    let m = position_of_least(&remaining, &costs);
    let center = remaining[m];
    let ghost rem0 = remaining@;
    remaining.remove(m);
    let mut ordered: Vec<i64> = Vec::new();
    ordered.push(center);
    proof {
        assert forall|b: i64| #[trigger] cluster@.contains(b) && b != ordered@[0] implies
            key_before(sum_to_others(dm, ordered@[0], cluster@), ordered@[0], sum_to_others(dm, b, cluster@), b) by {
            assert(rem0.to_set().contains(b));
            let j = choose|j: int| 0 <= j < rem0.len() && rem0[j] == b;
            assert(key_before(costs@[m as int] as int, rem0[m as int], costs@[j] as int, rem0[j]));
        }
        assert forall|x: i64| #[trigger] cluster@.contains(x) <==> (ordered@.contains(x) || remaining@.contains(x)) by {
            if cluster@.contains(x) {
                assert(rem0.to_set().contains(x));
                let j = choose|j: int| 0 <= j < rem0.len() && rem0[j] == x;
                if j < m {
                    assert(remaining@[j] == x);
                } else if j > m {
                    assert(remaining@[j - 1] == x);
                } else {
                    assert(ordered@[0] == x);
                }
            }
            if remaining@.contains(x) {
                let j = choose|j: int| 0 <= j < remaining@.len() && remaining@[j] == x;
                if j < m {
                    assert(rem0[j] == x);
                } else {
                    assert(rem0[j + 1] == x);
                }
                assert(rem0.to_set().contains(x));
            }
            if ordered@.contains(x) {
                assert(rem0.to_set().contains(x));
            }
        }
        assert forall|x: i64| #[trigger] ordered@.contains(x) implies !remaining@.contains(x) by {
            if remaining@.contains(x) {
                let j = choose|j: int| 0 <= j < remaining@.len() && remaining@[j] == x;
                if j < m {
                    assert(rem0[j] == x);
                } else {
                    assert(rem0[j + 1] == x);
                }
            }
        }
        assert(remaining@.no_duplicates()) by {
            assert forall|a: int, b: int| 0 <= a < b < remaining@.len() implies remaining@[a] != remaining@[b] by {
                let a0 = if a < m { a } else { a + 1 };
                let b0 = if b < m { b } else { b + 1 };
                assert(remaining@[a] == rem0[a0] && remaining@[b] == rem0[b0]);
            }
        }
    }
    // Each later node: least summed distance to the nodes already ordered.
    while remaining.len() > 0
        invariant
            dm == distance_table(dist),
            ordered.len() >= 1,
            ordered@.no_duplicates(),
            remaining@.no_duplicates(),
            forall|x: i64| #[trigger] cluster@.contains(x) <==> (ordered@.contains(x) || remaining@.contains(x)),
            forall|x: i64| #[trigger] ordered@.contains(x) ==> !remaining@.contains(x),
            forall|b: i64| #[trigger] cluster@.contains(b) && b != ordered@[0]
                ==> key_before(sum_to_others(dm, ordered@[0], cluster@), ordered@[0], sum_to_others(dm, b, cluster@), b),
            forall|i: int, b: i64|
                #![trigger sum_to(dm, b, ordered@.take(i))]
                1 <= i < ordered.len() && cluster@.contains(b) && !ordered@.take(i).contains(b) && b != ordered@[i]
                ==> key_before(sum_to(dm, ordered@[i], ordered@.take(i)), ordered@[i], sum_to(dm, b, ordered@.take(i)), b),
        decreases remaining.len(),
    {
        let mut costs: Vec<i128> = Vec::new();
        let mut k: usize = 0;
        while k < remaining.len()
            invariant
                0 <= k <= remaining.len(),
                costs.len() == k,
                dm == distance_table(dist),
                forall|j: int| 0 <= j < k ==> #[trigger] costs@[j] == sum_to(dm, remaining@[j], ordered@),
            decreases remaining.len() - k,
        {
            let c = sum_distances_to(dist, remaining[k], &ordered);
            costs.push(c);
            k = k + 1;
        }
        let m = position_of_least(&remaining, &costs);
        let nxt = remaining[m];
        let ghost rem0 = remaining@;
        let ghost ord0 = ordered@;
        remaining.remove(m);
        ordered.push(nxt);
        proof {
            assert(ordered@.take(ord0.len() as int) =~= ord0);
            assert forall|i: int, b: i64|
                #![trigger sum_to(dm, b, ordered@.take(i))]
                1 <= i < ordered.len() && cluster@.contains(b) && !ordered@.take(i).contains(b) && b != ordered@[i]
                implies key_before(sum_to(dm, ordered@[i], ordered@.take(i)), ordered@[i], sum_to(dm, b, ordered@.take(i)), b) by {
                if i < ord0.len() {
                    assert(ordered@.take(i) =~= ord0.take(i));
                    assert(sum_to(dm, b, ord0.take(i)) == sum_to(dm, b, ordered@.take(i)));
                } else {
                    assert(!ord0.contains(b));
                    assert(rem0.contains(b));
                    let j = choose|j: int| 0 <= j < rem0.len() && rem0[j] == b;
                    assert(key_before(costs@[m as int] as int, rem0[m as int], costs@[j] as int, rem0[j]));
                }
            }
            assert forall|x: i64| #[trigger] cluster@.contains(x) <==> (ordered@.contains(x) || remaining@.contains(x)) by {
                if rem0.contains(x) {
                    let j = choose|j: int| 0 <= j < rem0.len() && rem0[j] == x;
                    if j < m {
                        assert(remaining@[j] == x);
                    } else if j > m {
                        assert(remaining@[j - 1] == x);
                    } else {
                        assert(ordered@[ord0.len() as int] == x);
                    }
                }
                if remaining@.contains(x) {
                    let j = choose|j: int| 0 <= j < remaining@.len() && remaining@[j] == x;
                    if j < m {
                        assert(rem0[j] == x);
                    } else {
                        assert(rem0[j + 1] == x);
                    }
                }
                if ordered@.contains(x) {
                    let j = choose|j: int| 0 <= j < ordered@.len() && ordered@[j] == x;
                    if j < ord0.len() {
                        assert(ord0[j] == x);
                    }
                }
                if ord0.contains(x) {
                    let j = choose|j: int| 0 <= j < ord0.len() && ord0[j] == x;
                    assert(ordered@[j] == x);
                }
            }
            assert forall|x: i64| #[trigger] ordered@.contains(x) implies !remaining@.contains(x) by {
                if remaining@.contains(x) {
                    let j = choose|j: int| 0 <= j < remaining@.len() && remaining@[j] == x;
                    let j0 = if j < m { j } else { j + 1 };
                    assert(rem0[j0] == x);
                    let i = choose|i: int| 0 <= i < ordered@.len() && ordered@[i] == x;
                    assert(rem0.contains(x));
                    if i < ord0.len() {
                        assert(ord0[i] == x);
                        assert(ord0.contains(x));
                    } else {
                        assert(rem0[m as int] == x);
                        assert(j0 != m);
                        assert(rem0.no_duplicates());
                    }
                }
            }
            assert(remaining@.no_duplicates()) by {
                assert forall|a: int, b: int| 0 <= a < b < remaining@.len() implies remaining@[a] != remaining@[b] by {
                    let a0 = if a < m { a } else { a + 1 };
                    let b0 = if b < m { b } else { b + 1 };
                    assert(remaining@[a] == rem0[a0] && remaining@[b] == rem0[b0]);
                }
            }
            assert(ordered@.no_duplicates()) by {
                assert(!ord0.contains(nxt));
                assert forall|a: int, b: int| 0 <= a < b < ordered@.len() implies ordered@[a] != ordered@[b] by {
                    if b == ord0.len() {
                        assert(ord0[a] == ordered@[a]);
                    }
                }
            }
        }
    }
    proof {
        assert(ordered@.to_set() =~= cluster@.to_set()) by {
            assert forall|x: i64| ordered@.to_set().contains(x) <==> cluster@.to_set().contains(x) by {
                if cluster@.contains(x) {
                    assert(!remaining@.contains(x));
                }
            }
        }
    }
    ordered
}


/// `keys` lists the keys of `g`, each once.
pub open spec fn is_key_order(keys: Seq<i64>, g: Map<i64, Set<i64>>) -> bool {
    &&& keys.no_duplicates()
    &&& keys.to_set() == g.dom()
}

/// `dm` holds, for every key of `g`, the breadth-first distances from it.
pub open spec fn is_all_pairs_table(g: Map<i64, Set<i64>>, dm: Map<i64, Map<i64, i64>>) -> bool {
    &&& dm.dom() == g.dom()
    &&& forall|u: i64| #[trigger] dm.contains_key(u) ==> is_distance_map(g, u, dm[u])
}

/// In a graph whose edges run both ways, the all-pairs table is symmetric:
/// when `v` has an entry from `u`, `u` has the same entry from `v`.
pub proof fn lemma_all_pairs_symmetric(g: Map<i64, Set<i64>>, dm: Map<i64, Map<i64, i64>>, u: i64, v: i64)
    requires
        crate::graph::is_symmetric(g),
        is_all_pairs_table(g, dm),
        dm.contains_key(u),
        dm.contains_key(v),
        dm[u].contains_key(v),
    ensures
        dm[v].contains_key(u),
        dm[v][u] == dm[u][v],
{
    let d = dm[u][v] as int;
    assert(is_distance_map(g, u, dm[u]));
    assert(is_distance_map(g, v, dm[v]));
    assert(crate::graph::is_distance(g, u, v, d));
    crate::graph::lemma_distance_symmetric(g, u, v, d);
    let p = choose|p: Seq<i64>| #[trigger] crate::graph::walk_between(g, p, v, u) && p.len() == d + 1;
    assert(crate::graph::reachable(g, v, u));
    assert(dm[v].contains_key(u));
    crate::graph::lemma_distance_unique(g, v, u, d, dm[v][u] as int);
}

/// Every entry of `dm` is non-negative.
pub open spec fn nonnegative_table(dm: Map<i64, Map<i64, i64>>) -> bool {
    forall|a: i64, b: i64| dm.contains_key(a) && #[trigger] dm[a].contains_key(b) ==> dm[a][b] >= 0
}

/// `idx` is a strictly increasing sequence of `k` positions below `n`.
pub open spec fn is_index_choice(idx: Seq<int>, k: int, n: int) -> bool {
    &&& idx.len() == k
    &&& forall|a: int| 0 <= a < k ==> 0 <= #[trigger] idx[a] < n
    &&& forall|a: int, b: int| 0 <= a < b < k ==> idx[a] < idx[b]
}

/// The items of `items` at the positions `idx`, in that order.
pub open spec fn pick(items: Seq<i64>, idx: Seq<int>) -> Seq<i64> {
    idx.map_values(|i: int| items[i])
}

/// `c` is the items of `items` at some `k` increasing positions.
pub open spec fn is_combination(items: Seq<i64>, k: int, c: Seq<i64>) -> bool {
    exists|idx: Seq<int>| is_index_choice(idx, k, items.len() as int) && c == #[trigger] pick(items, idx)
}

/// A cluster the exact search accepts: each pair `(c[i], c[j])`, `i < j`, has
/// a table entry below `i64::MAX`, and their sum is below `i64::MAX`.
pub open spec fn exact_candidate(dm: Map<i64, Map<i64, i64>>, c: Seq<i64>) -> bool {
    &&& cluster_connected(dm, c)
    &&& cluster_total(dm, c) < i64::MAX
}

/// `best` is an accepted `k`-combination of `keys` of least cost.
pub open spec fn is_cheapest_combination(dm: Map<i64, Map<i64, i64>>, keys: Seq<i64>, k: int, best: Seq<i64>) -> bool {
    &&& is_combination(keys, k, best)
    &&& exact_candidate(dm, best)
    &&& forall|c: Seq<i64>| #[trigger] is_combination(keys, k, c) && exact_candidate(dm, c)
        ==> cluster_total(dm, best) <= cluster_total(dm, c)
}

/// `r` is what the exact search returns: for some order of the keys of `g`, a
/// cheapest accepted `n`-combination of them, ordered from its centre outwards.
pub open spec fn is_exact_cluster(g: Map<i64, Set<i64>>, n: int, dm: Map<i64, Map<i64, i64>>, r: Seq<i64>) -> bool {
    exists|keys: Seq<i64>, best: Seq<i64>|
        #![trigger is_key_order(keys, g), is_cheapest_combination(dm, keys, n, best)]
        is_key_order(keys, g) && is_cheapest_combination(dm, keys, n, best) && is_center_order(dm, best, r)
}

/// The `k`-combinations of `items`, in lexicographic order of their
/// positions: first those that take `items[0]`, then those that do not.
pub open spec fn lex_combinations(items: Seq<i64>, k: nat) -> Seq<Seq<i64>>
    decreases items.len(),
{
    if k == 0 {
        seq![Seq::<i64>::empty()]
    } else if items.len() == 0 {
        Seq::empty()
    } else {
        lex_combinations(items.drop_first(), (k - 1) as nat).map_values(|c: Seq<i64>| seq![items[0]] + c)
            + lex_combinations(items.drop_first(), k)
    }
}

proof fn lemma_shifted_choice(idx: Seq<int>, k: int, n: int)
    requires
        is_index_choice(idx, k, n),
    ensures
        is_index_choice(idx.map_values(|i: int| i + 1), k, n + 1),
{
}

/// Each combination in lexicographic order is the items at `k` increasing
/// positions.
proof fn lemma_lex_members(items: Seq<i64>, k: nat, c: int)
    requires
        0 <= c < lex_combinations(items, k).len(),
    ensures
        is_combination(items, k as int, lex_combinations(items, k)[c]),
    decreases items.len(),
{
    let n = items.len() as int;
    if k == 0 {
        let idx = Seq::<int>::empty();
        assert(pick(items, idx) =~= lex_combinations(items, k)[c]);
        assert(is_index_choice(idx, 0, n));
    } else if items.len() > 0 {
        let d = items.drop_first();
        let a = lex_combinations(d, (k - 1) as nat);
        let am = a.map_values(|x: Seq<i64>| seq![items[0]] + x);
        let b = lex_combinations(d, k);
        assert(lex_combinations(items, k) == am + b);
        if c < am.len() {
            lemma_lex_members(d, (k - 1) as nat, c);
            let idx1 = choose|idx1: Seq<int>| is_index_choice(idx1, k - 1, d.len() as int) && a[c] == #[trigger] pick(d, idx1);
            let sh = idx1.map_values(|i: int| i + 1);
            lemma_shifted_choice(idx1, k - 1, d.len() as int);
            let idx = seq![0int] + sh;
            assert(is_index_choice(idx, k as int, n)) by {
                assert forall|x: int, y: int| 0 <= x < y < k implies idx[x] < idx[y] by {
                    if x > 0 {
                        assert(idx[x] == sh[x - 1] && idx[y] == sh[y - 1]);
                    } else {
                        assert(idx[y] == sh[y - 1]);
                        assert(sh[y - 1] == idx1[y - 1] + 1);
                        assert(0 <= idx1[y - 1]);
                    }
                }
                assert forall|x: int| 0 <= x < k implies 0 <= #[trigger] idx[x] < n by {
                    if x > 0 {
                        assert(idx[x] == sh[x - 1]);
                    }
                }
            }
            assert(pick(items, idx) =~= lex_combinations(items, k)[c]) by {
                assert(lex_combinations(items, k)[c] == seq![items[0]] + a[c]);
                assert forall|x: int| 0 <= x < k implies #[trigger] pick(items, idx)[x] == (seq![items[0]] + a[c])[x] by {
                    if x > 0 {
                        assert(idx[x] == idx1[x - 1] + 1);
                        assert(a[c][x - 1] == d[idx1[x - 1]]);
                    }
                }
            }
        } else {
            let c2 = c - am.len();
            lemma_lex_members(d, k, c2);
            let idx1 = choose|idx1: Seq<int>| is_index_choice(idx1, k as int, d.len() as int) && b[c2] == #[trigger] pick(d, idx1);
            let idx = idx1.map_values(|i: int| i + 1);
            lemma_shifted_choice(idx1, k as int, d.len() as int);
            assert(pick(items, idx) =~= lex_combinations(items, k)[c]) by {
                assert(lex_combinations(items, k)[c] == b[c2]);
                assert forall|x: int| 0 <= x < k implies #[trigger] pick(items, idx)[x] == b[c2][x] by {
                    assert(b[c2][x] == d[idx1[x]]);
                }
            }
        }
    }
}

/// Every choice of `k` increasing positions occurs in the lexicographic list.
proof fn lemma_lex_complete(items: Seq<i64>, k: nat, idx: Seq<int>)
    requires
        is_index_choice(idx, k as int, items.len() as int),
    ensures
        exists|c: int| 0 <= c < lex_combinations(items, k).len() && #[trigger] lex_combinations(items, k)[c] == pick(items, idx),
    decreases items.len(),
{
    let n = items.len() as int;
    if k == 0 {
        assert(lex_combinations(items, k)[0] =~= pick(items, idx));
    } else if items.len() == 0 {
        assert(0 <= idx[0] < n);
    } else {
        let d = items.drop_first();
        let a = lex_combinations(d, (k - 1) as nat);
        let am = a.map_values(|x: Seq<i64>| seq![items[0]] + x);
        let b = lex_combinations(d, k);
        assert(lex_combinations(items, k) == am + b);
        if idx[0] == 0 {
            let idx1 = idx.drop_first().map_values(|i: int| i - 1);
            assert(is_index_choice(idx1, k - 1, n - 1)) by {
                assert forall|x: int| 0 <= x < k - 1 implies 0 <= #[trigger] idx1[x] < n - 1 by {
                    assert(idx[0] < idx[x + 1]);
                }
                assert forall|x: int, y: int| 0 <= x < y < k - 1 implies idx1[x] < idx1[y] by {
                    assert(idx[x + 1] < idx[y + 1]);
                }
            }
            lemma_lex_complete(d, (k - 1) as nat, idx1);
            let c = choose|c: int| 0 <= c < a.len() && #[trigger] a[c] == pick(d, idx1);
            assert(lex_combinations(items, k)[c] =~= pick(items, idx)) by {
                assert(lex_combinations(items, k)[c] == seq![items[0]] + a[c]);
                assert forall|x: int| 0 <= x < k implies #[trigger] pick(items, idx)[x] == (seq![items[0]] + a[c])[x] by {
                    if x > 0 {
                        assert(idx1[x - 1] == idx[x] - 1);
                    }
                }
            }
        } else {
            let idx1 = idx.map_values(|i: int| i - 1);
            assert(is_index_choice(idx1, k as int, n - 1)) by {
                assert forall|x: int| 0 <= x < k implies 0 <= #[trigger] idx1[x] < n - 1 by {
                    if x > 0 {
                        assert(idx[0] < idx[x]);
                    }
                }
                assert forall|x: int, y: int| 0 <= x < y < k implies idx1[x] < idx1[y] by {
                    assert(idx[x] < idx[y]);
                }
            }
            lemma_lex_complete(d, k, idx1);
            let c = choose|c: int| 0 <= c < b.len() && #[trigger] b[c] == pick(d, idx1);
            assert(lex_combinations(items, k)[am.len() + c] =~= pick(items, idx)) by {
                assert(lex_combinations(items, k)[am.len() + c] == b[c]);
                assert forall|x: int| 0 <= x < k implies #[trigger] pick(items, idx)[x] == b[c][x] by {
                    assert(idx1[x] == idx[x] - 1);
                }
            }
        }
    }
}

/// Every `k`-combination of `items`, as produced by `Itertools::combinations`
/// on the items in order.
///
/// Trusted: the contract says that the combinations are exactly those of
/// `lex_combinations`, in that order: lexicographic order of their positions,
/// which is how the adaptor advances its indices (`increment_indices` in its
/// source, `[0, 1] -> [0, 2] -> [0, 3] -> [1, 2]`) and what its documented
/// examples show. That `k = 0` gives one empty combination and `k` above the
/// number of items gives none is part of that.
#[verifier::external_body]
fn k_combinations(items: &Vec<i64>, k: usize) -> (combos: Vec<Vec<i64>>)
    ensures
        combos@.len() == lex_combinations(items@, k as nat).len(),
        forall|c: int| 0 <= c < combos.len() ==> #[trigger] combos@[c]@ == lex_combinations(items@, k as nat)[c],
{
    items.iter().copied().combinations(k).collect()
}

proof fn lemma_row_cost_monotone(dm: Map<i64, Map<i64, i64>>, c: Seq<i64>, i: int, j1: int, j2: int)
    requires
        nonnegative_table(dm),
        j1 <= j2,
    ensures
        row_cost(dm, c, i, j1) <= row_cost(dm, c, i, j2),
        row_cost(dm, c, i, j2) >= 0,
    decreases j2 - i,
{
    if j2 > i + 1 {
        assert(table_entry(dm, c[i], c[j2 - 1]) >= 0);
        let j1p = if j1 < j2 { j1 } else { j2 - 1 };
        lemma_row_cost_monotone(dm, c, i, j1p, j2 - 1);
    }
}

/// A strictly increasing choice of `k` positions below `n` has `k <= n`.
proof fn lemma_index_choice_len(idx: Seq<int>, k: int, n: int)
    requires
        is_index_choice(idx, k, n),
        0 <= n,
    ensures
        k <= n,
    decreases k,
{
    if k > 0 {
        let last = idx[k - 1];
        let rest = idx.drop_last();
        assert(is_index_choice(rest, k - 1, last)) by {
            assert forall|a: int| 0 <= a < k - 1 implies 0 <= #[trigger] rest[a] < last by {
                assert(idx[a] < idx[k - 1]);
            }
        }
        lemma_index_choice_len(rest, k - 1, last);
        assert(0 <= idx[k - 1] < n);
    }
}

proof fn lemma_pairs_cost_monotone(dm: Map<i64, Map<i64, i64>>, c: Seq<i64>, m1: int, m2: int)
    requires
        nonnegative_table(dm),
        m1 <= m2,
    ensures
        pairs_cost(dm, c, m1) <= pairs_cost(dm, c, m2),
    decreases m2 - m1,
{
    if m1 < m2 && m2 > 0 {
        lemma_row_cost_monotone(dm, c, m2 - 1, c.len() as int, c.len() as int);
        lemma_pairs_cost_monotone(dm, c, m1, m2 - 1);
    }
}

/// The cost of `nodes` when the exact search accepts it (see `exact_candidate`),
/// otherwise `None`.
fn candidate_cost(nodes: &Vec<i64>, dist: &HashMap<i64, HashMap<i64, i64>>) -> (cost: Option<i64>)
    requires
        nonnegative_table(distance_table(dist)),
    ensures
        cost is Some <==> exact_candidate(distance_table(dist), nodes@),
        cost matches Some(c) ==> c == cluster_total(distance_table(dist), nodes@),
{
    let ghost dm = distance_table(dist);
    let n = nodes.len();
    let mut total: i128 = 0;
    let mut i: usize = 0;
    while i < n
        invariant
            0 <= i <= n,
            n == nodes.len(),
            dm == distance_table(dist),
            nonnegative_table(dm),
            total == pairs_cost(dm, nodes@, i as int),
            0 <= total < i64::MAX,
            forall|a: int, b: int| 0 <= a < i && a < b < n ==> #[trigger] table_entry(dm, nodes@[a], nodes@[b]) != i64::MAX,
        decreases n - i,
    {
        let mut j: usize = i + 1;
        let mut acc: i128 = total;
        while j < n
            invariant
                i < n,
                i + 1 <= j <= n,
                n == nodes.len(),
                dm == distance_table(dist),
                nonnegative_table(dm),
                total == pairs_cost(dm, nodes@, i as int),
                acc == total + row_cost(dm, nodes@, i as int, j as int),
                0 <= acc < i64::MAX,
                forall|b: int| i < b < j ==> #[trigger] table_entry(dm, nodes@[i as int], nodes@[b]) != i64::MAX,
            decreases n - j,
        {
            let d = lookup_distance(dist, nodes[i], nodes[j]);
            if d == i64::MAX {
                return None;
            }
            proof {
                assert(d >= 0);
            }
            acc = acc + d as i128;
            if acc >= i64::MAX as i128 {
                proof {
                    lemma_row_cost_monotone(dm, nodes@, i as int, j + 1, n as int);
                    lemma_pairs_cost_monotone(dm, nodes@, i + 1, n as int);
                }
                return None;
            }
            j = j + 1;
        }
        total = acc;
        i = i + 1;
    }
    Some(total as i64)
}

/// The all-pairs table that `all_pairs_distances` builds is non-negative.
proof fn lemma_all_pairs_nonnegative(g: Map<i64, Set<i64>>, dm: Map<i64, Map<i64, i64>>)
    requires
        is_all_pairs_table(g, dm),
    ensures
        nonnegative_table(dm),
{
    assert forall|a: i64, b: i64| dm.contains_key(a) && #[trigger] dm[a].contains_key(b) implies dm[a][b] >= 0 by {
        assert(is_distance_map(g, a, dm[a]));
        assert(is_distance(g, a, b, dm[a][b] as int));
    }
}

/// The inputs on which the exact search completes: fewer than `i64::MAX` keys,
/// Position `i` of `combos` holds an accepted combination of least cost, and
/// every accepted one before it costs strictly more.
pub open spec fn first_cheapest(dm: Map<i64, Map<i64, i64>>, combos: Seq<Seq<i64>>, i: int) -> bool {
    &&& 0 <= i < combos.len()
    &&& exact_candidate(dm, combos[i])
    &&& forall|j: int| 0 <= j < combos.len() && exact_candidate(dm, #[trigger] combos[j])
        ==> cluster_total(dm, combos[i]) <= cluster_total(dm, combos[j])
    &&& forall|j: int| 0 <= j < i && exact_candidate(dm, #[trigger] combos[j])
        ==> cluster_total(dm, combos[i]) < cluster_total(dm, combos[j])
}

/// `r` is what the exact search returns when the keys come in the order
/// `keys`: the first accepted `n`-combination of least cost, in lexicographic
/// order of positions, ordered from its centre outwards.
pub open spec fn exact_result(keys: Seq<i64>, n: int, dm: Map<i64, Map<i64, i64>>, r: Seq<i64>) -> bool {
    exists|i: int|
        #[trigger] first_cheapest(dm, lex_combinations(keys, n as nat), i)
            && is_center_order(dm, lex_combinations(keys, n as nat)[i], r)
}

/// A graph has one all-pairs distance table.
pub proof fn lemma_all_pairs_unique(g: Map<i64, Set<i64>>, dm1: Map<i64, Map<i64, i64>>, dm2: Map<i64, Map<i64, i64>>)
    requires
        is_all_pairs_table(g, dm1),
        is_all_pairs_table(g, dm2),
    ensures
        dm1 == dm2,
{
    assert forall|u: i64| #[trigger] dm1.contains_key(u) implies dm1[u] == dm2[u] by {
        assert(dm2.contains_key(u));
        crate::graph::lemma_distance_map_unique(g, u, dm1[u], dm2[u]);
    }
    assert(dm1 =~= dm2);
}

proof fn lemma_key_before_asymmetric(c1: int, n1: i64, c2: int, n2: i64)
    ensures
        !(key_before(c1, n1, c2, n2) && key_before(c2, n2, c1, n1)),
{
}

proof fn lemma_center_prefix(dm: Map<i64, Map<i64, i64>>, cluster: Seq<i64>, r1: Seq<i64>, r2: Seq<i64>, i: int)
    requires
        is_center_order(dm, cluster, r1),
        is_center_order(dm, cluster, r2),
        r1.len() == r2.len(),
        1 <= i <= r1.len(),
    ensures
        r1.take(i) == r2.take(i),
    decreases i,
{
    if i == 1 {
        assert(r1[0] == r2[0]) by {
            assert(r1.to_set().contains(r1[0]));
            assert(r2.to_set().contains(r2[0]));
            assert(cluster.to_set().contains(r1[0]) && cluster.to_set().contains(r2[0]));
            if r1[0] != r2[0] {
                assert(cluster.contains(r2[0]) && cluster.contains(r1[0]));
                lemma_key_before_asymmetric(sum_to_others(dm, r1[0], cluster), r1[0], sum_to_others(dm, r2[0], cluster), r2[0]);
            }
        }
        assert(r1.take(1) =~= r2.take(1));
    } else {
        let j = i - 1;
        lemma_center_prefix(dm, cluster, r1, r2, j);
        let t = r1.take(j);
        assert(r1[j] == r2[j]) by {
            let a = r1[j];
            let b = r2[j];
            if a != b {
                assert(r1.to_set().contains(a) && r2.to_set().contains(b));
                assert(cluster.to_set().contains(a) && cluster.to_set().contains(b));
                assert(cluster.contains(a) && cluster.contains(b));
                assert(!t.contains(a)) by {
                    if t.contains(a) {
                        let k = choose|k: int| 0 <= k < t.len() && t[k] == a;
                        assert(r1[k] == r1[j]);
                    }
                }
                assert(!t.contains(b)) by {
                    if t.contains(b) {
                        let k = choose|k: int| 0 <= k < t.len() && t[k] == b;
                        assert(r2.take(j)[k] == b);
                        assert(r2[k] == r2[j]);
                    }
                }
                assert(key_before(sum_to(dm, a, r1.take(j)), a, sum_to(dm, b, r1.take(j)), b));
                assert(key_before(sum_to(dm, b, r2.take(j)), b, sum_to(dm, a, r2.take(j)), a));
                lemma_key_before_asymmetric(sum_to(dm, a, t), a, sum_to(dm, b, t), b);
            }
        }
        assert(r1.take(i) =~= r1.take(j).push(r1[j]));
        assert(r2.take(i) =~= r2.take(j).push(r2[j]));
    }
}

/// A cluster has one order from its centre outwards.
proof fn lemma_center_order_unique(dm: Map<i64, Map<i64, i64>>, cluster: Seq<i64>, r1: Seq<i64>, r2: Seq<i64>)
    requires
        is_center_order(dm, cluster, r1),
        is_center_order(dm, cluster, r2),
    ensures
        r1 == r2,
{
    r1.unique_seq_to_set();
    r2.unique_seq_to_set();
    let len = r1.len() as int;
    assert(r2.len() == len);
    lemma_center_prefix(dm, cluster, r1, r2, len);
    assert(r1 =~= r1.take(len));
    assert(r2 =~= r2.take(len));
}

/// Whatever the table was built by, the exact search's result for a given
/// order of the keys is one sequence: two runs on the same map (as
/// `find_closest_cluster` and `find_closest_cluster_exact` both are, when the
/// former picks the exact search) return the same table and the same cluster.
pub proof fn lemma_exact_result_unique(
    g: Map<i64, Set<i64>>,
    keys: Seq<i64>,
    n: int,
    dm1: Map<i64, Map<i64, i64>>,
    r1: Seq<i64>,
    dm2: Map<i64, Map<i64, i64>>,
    r2: Seq<i64>,
)
    requires
        is_all_pairs_table(g, dm1),
        is_all_pairs_table(g, dm2),
        exact_result(keys, n, dm1, r1),
        exact_result(keys, n, dm2, r2),
    ensures
        dm1 == dm2,
        r1 == r2,
{
    lemma_all_pairs_unique(g, dm1, dm2);
    let cv = lex_combinations(keys, n as nat);
    let i1 = choose|i: int| #[trigger] first_cheapest(dm1, cv, i) && is_center_order(dm1, cv[i], r1);
    let i2 = choose|i: int| #[trigger] first_cheapest(dm1, cv, i) && is_center_order(dm1, cv[i], r2);
    if i1 < i2 {
        assert(exact_candidate(dm1, cv[i1]));
    } else if i2 < i1 {
        assert(exact_candidate(dm1, cv[i2]));
    }
    assert(i1 == i2);
    lemma_center_order_unique(dm1, cv[i1], r1, r2);
}

/// `n >= 1`, and, whatever order the keys come in, some `n`-combination of
/// them is accepted (see `exact_candidate`).
pub open spec fn exact_search_defined(g: Map<i64, Set<i64>>, n: int) -> bool {
    &&& g.dom().len() < i64::MAX
    &&& 1 <= n
    &&& forall|keys: Seq<i64>, dm: Map<i64, Map<i64, i64>>|
        #![trigger is_key_order(keys, g), is_all_pairs_table(g, dm)]
        is_key_order(keys, g) && is_all_pairs_table(g, dm)
        ==> exists|c: Seq<i64>| #[trigger] is_combination(keys, n, c) && exact_candidate(dm, c)
}

/// The exact search: among the `n`-node combinations of the keys, taken in the
/// map's key order and visited in lexicographic order, the first accepted one
/// of least cost, ordered from its centre outwards; together with the
/// all-pairs distance table.
pub fn find_closest_cluster_exact(n: i64, neighbors: &HashMap<i64, HashSet<i64>>) -> (res: (
    Vec<i64>,
    HashMap<i64, HashMap<i64, i64>>,
))
    requires
        exact_search_defined(adjacency(neighbors), n as int),
    ensures
        is_all_pairs_table(adjacency(neighbors), distance_table(&res.1)),
        is_exact_cluster(adjacency(neighbors), n as int, distance_table(&res.1), res.0@),
        exact_result(key_order(neighbors), n as int, distance_table(&res.1), res.0@),
{
    let ghost g = adjacency(neighbors);
    proof {
        assert(g.dom() =~= neighbors@.dom());
    }
    let dists = all_pairs_distances(neighbors);
    let ghost dm = distance_table(&dists);
    proof {
        assert(dm.dom() =~= dists@.dom());
        assert(is_all_pairs_table(g, dm));
        lemma_all_pairs_nonnegative(g, dm);
    }
    let all_nodes = map_keys(neighbors);
    proof {
        assert(is_key_order(all_nodes@, g));
        let c = choose|c: Seq<i64>| #[trigger] is_combination(all_nodes@, n as int, c) && exact_candidate(dm, c);
        assert(is_combination(all_nodes@, n as int, c));
        let idx = choose|idx: Seq<int>| is_index_choice(idx, n as int, all_nodes@.len() as int) && c == #[trigger] pick(all_nodes@, idx);
        lemma_index_choice_len(idx, n as int, all_nodes@.len() as int);
        assert(n <= all_nodes@.len());
    }
    assert(all_nodes@.len() == all_nodes.len());
    let size = n as usize;
    assert(size as int == n as int);
    let combos = k_combinations(&all_nodes, size);
    let ghost cv = lex_combinations(all_nodes@, n as nat);
    proof {
        assert forall|c: int| 0 <= c < combos.len() implies is_combination(all_nodes@, n as int, #[trigger] combos@[c]@) by {
            lemma_lex_members(all_nodes@, n as nat, c);
        }
        assert forall|idx: Seq<int>| is_index_choice(idx, n as int, all_nodes.len() as int)
            implies exists|c: int| 0 <= c < combos.len() && #[trigger] combos@[c]@ == pick(all_nodes@, idx) by {
            lemma_lex_complete(all_nodes@, n as nat, idx);
            let c = choose|c: int| 0 <= c < cv.len() && #[trigger] cv[c] == pick(all_nodes@, idx);
            assert(combos@[c]@ == pick(all_nodes@, idx));
        }
    }
    let mut best_cluster: Vec<i64> = Vec::new();
    let mut best_cost: i64 = i64::MAX;
    let mut found = false;
    let ghost mut bi: int = 0;
    let mut i: usize = 0;
    while i < combos.len()
        invariant
            0 <= i <= combos.len(),
            cv == lex_combinations(all_nodes@, n as nat),
            combos@.len() == cv.len(),
            forall|c: int| 0 <= c < combos.len() ==> #[trigger] combos@[c]@ == cv[c],
            found ==> 0 <= bi < i && best_cluster@ == cv[bi],
            found ==> forall|j: int| 0 <= j < bi && exact_candidate(dm, #[trigger] cv[j]) ==> best_cost < cluster_total(dm, cv[j]),
            dm == distance_table(&dists),
            nonnegative_table(dm),
            forall|c: int| 0 <= c < combos.len() ==> is_combination(all_nodes@, n as int, #[trigger] combos@[c]@),
            found ==> is_combination(all_nodes@, n as int, best_cluster@) && exact_candidate(dm, best_cluster@)
                && best_cost == cluster_total(dm, best_cluster@),
            !found ==> best_cost == i64::MAX,
            forall|c: int| 0 <= c < i && exact_candidate(dm, #[trigger] combos@[c]@)
                ==> found && best_cost <= cluster_total(dm, combos@[c]@),
        decreases combos.len() - i,
    {
        match candidate_cost(&combos[i], &dists) {
            Some(cost) => {
                if cost < best_cost {
                    proof {
                        assert forall|j: int| 0 <= j < i && exact_candidate(dm, #[trigger] cv[j])
                            implies cost < cluster_total(dm, cv[j]) by {
                            assert(combos@[j]@ == cv[j]);
                        }
                    }
                    best_cost = cost;
                    best_cluster = combos[i].clone();
                    proof {
                        assert(best_cluster@ =~= combos@[i as int]@);
                        bi = i as int;
                    }
                    found = true;
                }
            },
            None => {},
        }
        i = i + 1;
    }
    proof {
        let c = choose|c: Seq<i64>| #[trigger] is_combination(all_nodes@, n as int, c) && exact_candidate(dm, c);
        let idx = choose|idx: Seq<int>| is_index_choice(idx, n as int, all_nodes@.len() as int) && c == #[trigger] pick(all_nodes@, idx);
        let k = choose|k: int| 0 <= k < combos.len() && #[trigger] combos@[k]@ == pick(all_nodes@, idx);
        assert(exact_candidate(dm, combos@[k]@));
        assert(found);
        assert(is_cheapest_combination(dm, all_nodes@, n as int, best_cluster@)) by {
            assert forall|c2: Seq<i64>| #[trigger] is_combination(all_nodes@, n as int, c2) && exact_candidate(dm, c2)
                implies cluster_total(dm, best_cluster@) <= cluster_total(dm, c2) by {
                let idx2 = choose|idx2: Seq<int>| is_index_choice(idx2, n as int, all_nodes@.len() as int) && c2 == #[trigger] pick(all_nodes@, idx2);
                let k2 = choose|k2: int| 0 <= k2 < combos.len() && #[trigger] combos@[k2]@ == pick(all_nodes@, idx2);
                assert(exact_candidate(dm, combos@[k2]@));
            }
        }
        let bidx = choose|bidx: Seq<int>| is_index_choice(bidx, n as int, all_nodes@.len() as int) && best_cluster@ == #[trigger] pick(all_nodes@, bidx);
        assert(best_cluster@.len() == n);
        assert forall|j: int| 0 <= j < best_cluster.len() implies dists@.contains_key(#[trigger] best_cluster@[j]) by {
            assert(best_cluster@[j] == all_nodes@[bidx[j]]);
            assert(all_nodes@.to_set().contains(all_nodes@[bidx[j]]));
        }
    }
    let ordered = order_cluster(&best_cluster, &dists);
    proof {
        assert(is_key_order(all_nodes@, adjacency(neighbors)));
        assert(is_cheapest_combination(distance_table(&dists), all_nodes@, n as int, best_cluster@));
        assert(is_center_order(distance_table(&dists), best_cluster@, ordered@));
        assert(is_exact_cluster(adjacency(neighbors), n as int, distance_table(&dists), ordered@));
        assert(all_nodes@ == key_order(neighbors));
        assert forall|j: int| 0 <= j < cv.len() && exact_candidate(dm, #[trigger] cv[j])
            implies cluster_total(dm, cv[bi]) <= cluster_total(dm, cv[j]) by {
            assert(combos@[j]@ == cv[j]);
        }
        assert(first_cheapest(dm, cv, bi));
    }
    (ordered, dists)
}


/// `(u, v)` is an edge of `g` with `u < v`.
pub open spec fn is_ordered_edge(g: Map<i64, Set<i64>>, u: i64, v: i64) -> bool {
    &&& g.contains_key(u)
    &&& g[u].contains(v)
    &&& u < v
}

/// The greedy search's score for the pair `(u, v)`: their summed distances to
/// every key.
pub open spec fn pair_score(dm: Map<i64, Map<i64, i64>>, keys: Seq<i64>, u: i64, v: i64) -> int {
    sum_to(dm, u, keys) + sum_to(dm, v, keys)
}

/// An edge the greedy search may start from: ordered, with a score below `i64::MAX`.
pub open spec fn eligible_pair(g: Map<i64, Set<i64>>, dm: Map<i64, Map<i64, i64>>, keys: Seq<i64>, u: i64, v: i64) -> bool {
    &&& is_ordered_edge(g, u, v)
    &&& pair_score(dm, keys, u, v) < i64::MAX
}

/// Some edge is eligible to start the greedy search.
pub open spec fn has_eligible_pair(g: Map<i64, Set<i64>>, dm: Map<i64, Map<i64, i64>>, keys: Seq<i64>) -> bool {
    exists|u: i64, v: i64| #[trigger] eligible_pair(g, dm, keys, u, v)
}

/// The size of the starting pair: two nodes when an edge is eligible, none otherwise.
pub open spec fn greedy_base(g: Map<i64, Set<i64>>, dm: Map<i64, Map<i64, i64>>, keys: Seq<i64>) -> int {
    if has_eligible_pair(g, dm, keys) {
        2
    } else {
        0
    }
}

/// `cl` is a cluster the greedy search can grow: it starts with an eligible
/// edge of least score (when there is one), then repeatedly adds a key of least
/// summed distance to the nodes already chosen, the smaller key on a tie, up
/// to `n` nodes.
pub open spec fn is_greedy_cluster(
    g: Map<i64, Set<i64>>,
    n: int,
    dm: Map<i64, Map<i64, i64>>,
    keys: Seq<i64>,
    cl: Seq<i64>,
) -> bool {
    let base = greedy_base(g, dm, keys);
    &&& cl.no_duplicates()
    &&& forall|i: int| 0 <= i < cl.len() ==> g.contains_key(#[trigger] cl[i])
    &&& cl.len() == if n > base { n } else { base }
    &&& base == 2 ==> {
        &&& eligible_pair(g, dm, keys, cl[0], cl[1])
        &&& forall|u: i64, v: i64| #[trigger] eligible_pair(g, dm, keys, u, v)
            ==> pair_score(dm, keys, cl[0], cl[1]) <= pair_score(dm, keys, u, v)
    }
    &&& forall|i: int, w: i64|
        #![trigger sum_to(dm, w, cl.take(i))]
        base <= i < cl.len() && g.contains_key(w) && !cl.take(i).contains(w) && w != cl[i]
        ==> key_before(sum_to(dm, cl[i], cl.take(i)), cl[i], sum_to(dm, w, cl.take(i)), w)
}

/// `r` is what the greedy search returns: for some order of the keys of `g`, a
/// greedy cluster, ordered from its centre outwards.
pub open spec fn is_greedy_result(g: Map<i64, Set<i64>>, n: int, dm: Map<i64, Map<i64, i64>>, r: Seq<i64>) -> bool {
    exists|keys: Seq<i64>, cl: Seq<i64>|
        #![trigger is_key_order(keys, g), is_greedy_cluster(g, n, dm, keys, cl)]
        is_key_order(keys, g) && is_greedy_cluster(g, n, dm, keys, cl) && is_center_order(dm, cl, r)
}

proof fn lemma_sum_to_range(dm: Map<i64, Map<i64, i64>>, b: i64, xs: Seq<i64>)
    ensures
        sum_to(dm, b, xs) <= 0x7fff_ffff_ffff_ffff * xs.len(),
        nonnegative_table(dm) ==> sum_to(dm, b, xs) >= 0,
    decreases xs.len(),
{
    if xs.len() > 0 {
        lemma_sum_to_range(dm, b, xs.drop_last());
        assert(0x7fff_ffff_ffff_ffff * xs.len() == 0x7fff_ffff_ffff_ffff * xs.drop_last().len() + 0x7fff_ffff_ffff_ffff) by (nonlinear_arith)
            requires xs.len() == xs.drop_last().len() + 1;
    }
}

/// The order in which the greedy search meets the successors of `u`: the
/// iteration order of its set in `neighbors`.
pub open spec fn successor_order(neighbors: &HashMap<i64, HashSet<i64>>, u: i64) -> Seq<i64> {
    crate::graph::member_order(&neighbors@[u])
}

/// The greedy search, visiting the keys in the order `keys` and each key's
/// successors in their set's order, meets `(u, v)` no later than `(u2, v2)`.
pub open spec fn met_no_later(keys: Seq<i64>, neighbors: &HashMap<i64, HashSet<i64>>, u: i64, v: i64, u2: i64, v2: i64) -> bool {
    ||| keys.index_of(u) < keys.index_of(u2)
    ||| (u == u2 && successor_order(neighbors, u).index_of(v) <= successor_order(neighbors, u).index_of(v2))
}

/// `(u, v)` is the pair the greedy search starts from: eligible, of least
/// score, and met first among the eligible pairs of that score.
pub open spec fn first_pair(
    g: Map<i64, Set<i64>>,
    dm: Map<i64, Map<i64, i64>>,
    keys: Seq<i64>,
    neighbors: &HashMap<i64, HashSet<i64>>,
    u: i64,
    v: i64,
) -> bool {
    &&& eligible_pair(g, dm, keys, u, v)
    &&& successor_order(neighbors, u).contains(v)
    &&& forall|u2: i64, v2: i64| #[trigger] eligible_pair(g, dm, keys, u2, v2) ==> {
        &&& pair_score(dm, keys, u, v) <= pair_score(dm, keys, u2, v2)
        &&& pair_score(dm, keys, u2, v2) == pair_score(dm, keys, u, v) ==> met_no_later(keys, neighbors, u, v, u2, v2)
    }
}

/// `r` is what the greedy search returns on the map `neighbors`, whose keys
/// it visits in the map's iteration order: the greedy cluster grown from the
/// first pair, ordered from its centre outwards.
pub open spec fn greedy_outcome(neighbors: &HashMap<i64, HashSet<i64>>, n: int, dm: Map<i64, Map<i64, i64>>, r: Seq<i64>) -> bool {
    let g = adjacency(neighbors);
    let keys = key_order(neighbors);
    exists|cl: Seq<i64>|
        #[trigger] is_greedy_cluster(g, n, dm, keys, cl)
            && (greedy_base(g, dm, keys) == 2 ==> first_pair(g, dm, keys, neighbors, cl[0], cl[1]))
            && is_center_order(dm, cl, r)
}

proof fn lemma_index_of_position(s: Seq<i64>, i: int)
    requires
        s.no_duplicates(),
        0 <= i < s.len(),
    ensures
        s.index_of(s[i]) == i,
{
    let j = s.index_of(s[i]);
    assert(0 <= j < s.len() && s[j] == s[i]);
}

proof fn lemma_first_pair_unique(
    g: Map<i64, Set<i64>>,
    dm: Map<i64, Map<i64, i64>>,
    keys: Seq<i64>,
    neighbors: &HashMap<i64, HashSet<i64>>,
    u1: i64,
    v1: i64,
    u2: i64,
    v2: i64,
)
    requires
        first_pair(g, dm, keys, neighbors, u1, v1),
        first_pair(g, dm, keys, neighbors, u2, v2),
    ensures
        u1 == u2,
        v1 == v2,
{
    assert(eligible_pair(g, dm, keys, u1, v1));
    assert(eligible_pair(g, dm, keys, u2, v2));
    assert(met_no_later(keys, neighbors, u1, v1, u2, v2));
    assert(met_no_later(keys, neighbors, u2, v2, u1, v1));
    let so = successor_order(neighbors, u1);
    assert(so[so.index_of(v1)] == v1);
    assert(so[so.index_of(v2)] == v2);
}

proof fn lemma_greedy_prefix(
    g: Map<i64, Set<i64>>,
    n: int,
    dm: Map<i64, Map<i64, i64>>,
    keys: Seq<i64>,
    c1: Seq<i64>,
    c2: Seq<i64>,
    i: int,
)
    requires
        is_greedy_cluster(g, n, dm, keys, c1),
        is_greedy_cluster(g, n, dm, keys, c2),
        greedy_base(g, dm, keys) <= i <= c1.len(),
        c1.take(greedy_base(g, dm, keys)) == c2.take(greedy_base(g, dm, keys)),
    ensures
        c1.take(i) == c2.take(i),
    decreases i,
{
    let base = greedy_base(g, dm, keys);
    if i > base {
        let j = i - 1;
        lemma_greedy_prefix(g, n, dm, keys, c1, c2, j);
        let t = c1.take(j);
        assert(c1[j] == c2[j]) by {
            let a = c1[j];
            let b = c2[j];
            if a != b {
                assert(g.contains_key(a) && g.contains_key(b));
                assert(!t.contains(a)) by {
                    if t.contains(a) {
                        let k = choose|k: int| 0 <= k < t.len() && t[k] == a;
                        assert(c1[k] == c1[j]);
                    }
                }
                assert(!t.contains(b)) by {
                    if t.contains(b) {
                        let k = choose|k: int| 0 <= k < t.len() && t[k] == b;
                        assert(c2.take(j)[k] == b);
                        assert(c2[k] == c2[j]);
                    }
                }
                assert(key_before(sum_to(dm, a, c1.take(j)), a, sum_to(dm, b, c1.take(j)), b));
                assert(key_before(sum_to(dm, b, c2.take(j)), b, sum_to(dm, a, c2.take(j)), a));
                lemma_key_before_asymmetric(sum_to(dm, a, t), a, sum_to(dm, b, t), b);
            }
        }
        assert(c1.take(i) =~= c1.take(j).push(c1[j]));
        assert(c2.take(i) =~= c2.take(j).push(c2[j]));
    }
}

/// The greedy search's result on a map is one sequence: two runs on the same
/// map (as `find_closest_cluster` and `find_closest_cluster_greedy` both are,
/// when the former picks the greedy search) return the same table and the
/// same cluster.
pub proof fn lemma_greedy_outcome_unique(
    neighbors: &HashMap<i64, HashSet<i64>>,
    n: int,
    dm1: Map<i64, Map<i64, i64>>,
    r1: Seq<i64>,
    dm2: Map<i64, Map<i64, i64>>,
    r2: Seq<i64>,
)
    requires
        is_all_pairs_table(adjacency(neighbors), dm1),
        is_all_pairs_table(adjacency(neighbors), dm2),
        greedy_outcome(neighbors, n, dm1, r1),
        greedy_outcome(neighbors, n, dm2, r2),
    ensures
        dm1 == dm2,
        r1 == r2,
{
    let g = adjacency(neighbors);
    let keys = key_order(neighbors);
    lemma_all_pairs_unique(g, dm1, dm2);
    let dm = dm1;
    let c1 = choose|cl: Seq<i64>|
        #[trigger] is_greedy_cluster(g, n, dm, keys, cl)
            && (greedy_base(g, dm, keys) == 2 ==> first_pair(g, dm, keys, neighbors, cl[0], cl[1]))
            && is_center_order(dm, cl, r1);
    let c2 = choose|cl: Seq<i64>|
        #[trigger] is_greedy_cluster(g, n, dm, keys, cl)
            && (greedy_base(g, dm, keys) == 2 ==> first_pair(g, dm, keys, neighbors, cl[0], cl[1]))
            && is_center_order(dm, cl, r2);
    let base = greedy_base(g, dm, keys);
    if base == 2 {
        lemma_first_pair_unique(g, dm, keys, neighbors, c1[0], c1[1], c2[0], c2[1]);
        assert(c1.take(2) =~= c2.take(2));
    } else {
        assert(c1.take(0) =~= c2.take(0));
    }
    lemma_greedy_prefix(g, n, dm, keys, c1, c2, c1.len() as int);
    assert(c1 =~= c1.take(c1.len() as int));
    assert(c2 =~= c2.take(c2.len() as int));
    lemma_center_order_unique(dm, c1, r1, r2);
}

/// The inputs on which the greedy search completes: fewer than `i64::MAX` keys,
/// `0 <= n <= ` the number of keys, the larger end of every ordered edge is a
/// key, and the cluster is not left empty (`n >= 1`, or some edge is eligible
/// whatever order the keys come in).
pub open spec fn greedy_search_defined(g: Map<i64, Set<i64>>, n: int) -> bool {
    &&& g.dom().len() < i64::MAX
    &&& 0 <= n <= g.dom().len()
    &&& forall|u: i64, v: i64| #[trigger] is_ordered_edge(g, u, v) ==> g.contains_key(v)
    &&& 1 <= n || forall|keys: Seq<i64>, dm: Map<i64, Map<i64, i64>>|
        #![trigger is_key_order(keys, g), is_all_pairs_table(g, dm)]
        is_key_order(keys, g) && is_all_pairs_table(g, dm) ==> has_eligible_pair(g, dm, keys)
}

/// The greedy search: start from an eligible edge of least score, then keep
/// adding a key of least summed distance to the nodes chosen so far until
/// there are `n`; the result is ordered from its centre outwards and returned
/// with the all-pairs distance table. Among starting pairs of equal score the
/// search keeps the one it meets first (see `first_pair`); among keys of equal
/// summed distance it adds the smaller.
pub fn find_closest_cluster_greedy(n: i64, neighbors: &HashMap<i64, HashSet<i64>>) -> (res: (
    Vec<i64>,
    HashMap<i64, HashMap<i64, i64>>,
))
    requires
        greedy_search_defined(adjacency(neighbors), n as int),
    ensures
        is_all_pairs_table(adjacency(neighbors), distance_table(&res.1)),
        is_greedy_result(adjacency(neighbors), n as int, distance_table(&res.1), res.0@),
        greedy_outcome(neighbors, n as int, distance_table(&res.1), res.0@),
{
    let ghost g = adjacency(neighbors);
    proof {
        assert(g.dom() =~= neighbors@.dom());
    }
    let dists = all_pairs_distances(neighbors);
    let ghost dm = distance_table(&dists);
    proof {
        assert(dm.dom() =~= dists@.dom());
        assert(is_all_pairs_table(g, dm));
        lemma_all_pairs_nonnegative(g, dm);
    }
    let all_nodes = map_keys(neighbors);
    let ghost keys = all_nodes@;
    proof {
        assert(is_key_order(keys, g));
    }
    // The starting pair.
    let mut best_pair: Vec<i64> = Vec::new();
    let mut best_score: i128 = i64::MAX as i128;
    let mut found = false;
    let mut a: usize = 0;
    while a < all_nodes.len()
        invariant
            0 <= a <= all_nodes.len(),
            keys == all_nodes@,
            g == adjacency(neighbors),
            dm == distance_table(&dists),
            nonnegative_table(dm),
            keys.to_set() == g.dom(),
            found ==> best_pair@.len() == 2 && eligible_pair(g, dm, keys, best_pair@[0], best_pair@[1])
                && best_score == pair_score(dm, keys, best_pair@[0], best_pair@[1]),
            !found ==> best_score == i64::MAX && best_pair@.len() == 0,
            forall|u: i64, v: i64| #[trigger] eligible_pair(g, dm, keys, u, v) && all_nodes@.take(a as int).contains(u)
                ==> found && best_score <= pair_score(dm, keys, u, v),
            keys == key_order(neighbors),
            keys.no_duplicates(),
            found ==> keys.take(a as int).contains(best_pair@[0]),
            found ==> successor_order(neighbors, best_pair@[0]).contains(best_pair@[1]),
            found ==> forall|u2: i64, v2: i64| #[trigger] eligible_pair(g, dm, keys, u2, v2) && keys.take(a as int).contains(u2)
                && pair_score(dm, keys, u2, v2) == best_score
                ==> met_no_later(keys, neighbors, best_pair@[0], best_pair@[1], u2, v2),
        decreases all_nodes.len() - a,
    {
        let u = all_nodes[a];
        proof {
            lemma_index_of_position(keys, a as int);
        }
        proof {
            assert(keys.to_set().contains(u));
        }
        let succ = match neighbors.get(&u) {
            Some(s) => set_members(s),
            None => Vec::new(),
        };
        proof {
            assert(succ@.to_set() == g[u]);
            assert(succ@ == successor_order(neighbors, u));
        }
        let mut b: usize = 0;
        while b < succ.len()
            invariant
                0 <= b <= succ.len(),
                0 <= a < all_nodes.len(),
                u == all_nodes@[a as int],
                keys == all_nodes@,
                g == adjacency(neighbors),
                dm == distance_table(&dists),
                nonnegative_table(dm),
                succ@.to_set() == g[u],
                g.contains_key(u),
                found ==> best_pair@.len() == 2 && eligible_pair(g, dm, keys, best_pair@[0], best_pair@[1])
                    && best_score == pair_score(dm, keys, best_pair@[0], best_pair@[1]),
                !found ==> best_score == i64::MAX && best_pair@.len() == 0,
                forall|u2: i64, v: i64| #[trigger] eligible_pair(g, dm, keys, u2, v) && all_nodes@.take(a as int).contains(u2)
                    ==> found && best_score <= pair_score(dm, keys, u2, v),
                forall|v: i64| #[trigger] eligible_pair(g, dm, keys, u, v) && succ@.take(b as int).contains(v)
                    ==> found && best_score <= pair_score(dm, keys, u, v),
                keys == key_order(neighbors),
                keys.no_duplicates(),
                keys.index_of(u) == a,
                succ@ == successor_order(neighbors, u),
                succ@.no_duplicates(),
                found ==> keys.take(a as int).contains(best_pair@[0])
                    || (best_pair@[0] == u && succ@.take(b as int).contains(best_pair@[1])),
                found ==> successor_order(neighbors, best_pair@[0]).contains(best_pair@[1]),
                found ==> forall|u2: i64, v2: i64| #[trigger] eligible_pair(g, dm, keys, u2, v2) && keys.take(a as int).contains(u2)
                    && pair_score(dm, keys, u2, v2) == best_score
                    ==> met_no_later(keys, neighbors, best_pair@[0], best_pair@[1], u2, v2),
                found ==> forall|v2: i64| #[trigger] eligible_pair(g, dm, keys, u, v2) && succ@.take(b as int).contains(v2)
                    && pair_score(dm, keys, u, v2) == best_score
                    ==> met_no_later(keys, neighbors, best_pair@[0], best_pair@[1], u, v2),
            decreases succ.len() - b,
        {
            let v = succ[b];
            let ghost bs0 = best_score;
            let ghost bp0 = best_pair@;
            let ghost found0 = found;
            proof {
                lemma_index_of_position(succ@, b as int);
            }
            proof {
                assert(succ@.to_set().contains(v));
                assert(succ@.take(b + 1) =~= succ@.take(b as int).push(v));
            }
            if u < v {
                let su = sum_distances_to(&dists, u, &all_nodes);
                proof {
                    lemma_sum_to_range(dm, u, keys);
                    lemma_sum_to_range(dm, v, keys);
                }
                if su < i64::MAX as i128 {
                    let sv = sum_distances_to(&dists, v, &all_nodes);
                    if sv < i64::MAX as i128 {
                        let score = su + sv;
                        if score < best_score {
                            best_score = score;
                            best_pair = vec![u, v];
                            found = true;
                        }
                    }
                }
            }
            proof {
                assert(succ@.take(b + 1) =~= succ@.take(b as int).push(v));
                assert forall|u2: i64, v2: i64| #[trigger] eligible_pair(g, dm, keys, u2, v2) && keys.take(a as int).contains(u2)
                    && pair_score(dm, keys, u2, v2) == best_score && found
                    implies met_no_later(keys, neighbors, best_pair@[0], best_pair@[1], u2, v2) by {
                    if best_pair@ != bp0 {
                        assert(bs0 <= pair_score(dm, keys, u2, v2));
                    }
                }
                assert forall|v2: i64| #[trigger] eligible_pair(g, dm, keys, u, v2) && succ@.take(b + 1).contains(v2)
                    && pair_score(dm, keys, u, v2) == best_score && found
                    implies met_no_later(keys, neighbors, best_pair@[0], best_pair@[1], u, v2) by {
                    if best_pair@ != bp0 {
                        if v2 != v {
                            assert(succ@.take(b as int).contains(v2));
                            assert(bs0 <= pair_score(dm, keys, u, v2));
                        }
                        assert(best_pair@[0] == u && best_pair@[1] == v);
                    } else if v2 == v {
                        if keys.take(a as int).contains(best_pair@[0]) {
                            let k = choose|k: int| 0 <= k < keys.take(a as int).len() && keys.take(a as int)[k] == best_pair@[0];
                            assert(keys[k] == best_pair@[0]);
                            lemma_index_of_position(keys, k);
                        } else {
                            let t = succ@.take(b as int);
                            let k = choose|k: int| 0 <= k < t.len() && t[k] == best_pair@[1];
                            assert(succ@[k] == best_pair@[1]);
                            lemma_index_of_position(succ@, k);
                        }
                    } else {
                        assert(succ@.take(b as int).contains(v2));
                    }
                }
                if found && best_pair@ == bp0 {
                    if !keys.take(a as int).contains(best_pair@[0]) {
                        let t = succ@.take(b as int);
                        let k = choose|k: int| 0 <= k < t.len() && t[k] == best_pair@[1];
                        assert(succ@.take(b + 1)[k] == best_pair@[1]);
                    }
                }
                if found && best_pair@ != bp0 {
                    assert(succ@.take(b + 1)[b as int] == v);
                    assert(succ@[b as int] == v);
                }
            }
            b = b + 1;
        }
        proof {
            assert(all_nodes@.take(a + 1) =~= all_nodes@.take(a as int).push(u));
            assert(succ@.take(succ.len() as int) =~= succ@);
            if found {
                if keys.take(a as int).contains(best_pair@[0]) {
                    let t = keys.take(a as int);
                    let k = choose|k: int| 0 <= k < t.len() && t[k] == best_pair@[0];
                    assert(keys.take(a + 1)[k] == best_pair@[0]);
                } else {
                    assert(keys.take(a + 1)[a as int] == u);
                }
                assert forall|u2: i64, v2: i64| #[trigger] eligible_pair(g, dm, keys, u2, v2) && keys.take(a + 1).contains(u2)
                    && pair_score(dm, keys, u2, v2) == best_score
                    implies met_no_later(keys, neighbors, best_pair@[0], best_pair@[1], u2, v2) by {
                    if u2 == u {
                        assert(succ@.to_set().contains(v2));
                    } else {
                        let t = keys.take(a + 1);
                        let k = choose|k: int| 0 <= k < t.len() && t[k] == u2;
                        assert(keys.take(a as int)[k] == u2);
                    }
                }
            }
            assert(succ@.take(succ.len() as int) =~= succ@);
            assert forall|u2: i64, v: i64| #[trigger] eligible_pair(g, dm, keys, u2, v) && all_nodes@.take(a + 1).contains(u2)
                implies found && best_score <= pair_score(dm, keys, u2, v) by {
                if u2 == u {
                    assert(succ@.to_set().contains(v));
                } else {
                    assert(all_nodes@.take(a as int).contains(u2)) by {
                        let t = all_nodes@.take(a + 1);
                        let k = choose|k: int| 0 <= k < t.len() && t[k] == u2;
                        assert(all_nodes@.take(a as int)[k] == u2);
                    }
                }
            }
        }
        a = a + 1;
    }
    proof {
        assert(all_nodes@.take(all_nodes.len() as int) =~= all_nodes@);
        assert(found <==> has_eligible_pair(g, dm, keys)) by {
            if has_eligible_pair(g, dm, keys) {
                let (u, v) = choose|u: i64, v: i64| #[trigger] eligible_pair(g, dm, keys, u, v);
                assert(keys.to_set().contains(u));
            }
            if found {
                assert(eligible_pair(g, dm, keys, best_pair@[0], best_pair@[1]));
            }
        }
        if found {
            assert forall|u2: i64, v2: i64| #[trigger] eligible_pair(g, dm, keys, u2, v2) implies {
                &&& pair_score(dm, keys, best_pair@[0], best_pair@[1]) <= pair_score(dm, keys, u2, v2)
                &&& pair_score(dm, keys, u2, v2) == pair_score(dm, keys, best_pair@[0], best_pair@[1])
                    ==> met_no_later(keys, neighbors, best_pair@[0], best_pair@[1], u2, v2)
            } by {
                assert(keys.to_set().contains(u2));
            }
            assert(first_pair(g, dm, keys, neighbors, best_pair@[0], best_pair@[1]));
        }
    }
    let ghost start_pair = best_pair@;
    // Grow the cluster one least-cost key at a time.
    let mut cluster = best_pair;
    let mut cand_nodes: Vec<i64> = Vec::new();
    let mut cand_costs: Vec<i128> = Vec::new();
    let mut k: usize = 0;
    while k < all_nodes.len()
        invariant
            0 <= k <= all_nodes.len(),
            keys == all_nodes@,
            keys.no_duplicates(),
            dm == distance_table(&dists),
            nonnegative_table(dm),
            cluster@.len() == 0 || cluster@.len() == 2,
            cluster@ == start_pair,
            cand_nodes.len() == cand_costs.len(),
            cand_nodes@.no_duplicates(),
            forall|x: i64| #[trigger] cand_nodes@.contains(x)
                <==> (all_nodes@.take(k as int).contains(x) && !cluster@.contains(x)),
            forall|j: int| 0 <= j < cand_nodes.len() ==> #[trigger] cand_costs@[j] == sum_to(dm, cand_nodes@[j], cluster@),
            forall|j: int| 0 <= j < cand_nodes.len() ==> 0 <= #[trigger] cand_costs@[j] <= 0x7fff_ffff_ffff_ffff * cluster@.len(),
        decreases all_nodes.len() - k,
    {
        let node = all_nodes[k];
        let mut in_cluster = false;
        let mut c: usize = 0;
        while c < cluster.len()
            invariant
                0 <= c <= cluster.len(),
                in_cluster <==> exists|m: int| 0 <= m < c && cluster@[m] == node,
            decreases cluster.len() - c,
        {
            if cluster[c] == node {
                in_cluster = true;
            }
            c = c + 1;
        }
        proof {
            assert(all_nodes@.take(k + 1) =~= all_nodes@.take(k as int).push(node));
            assert(!all_nodes@.take(k as int).contains(node)) by {
                if all_nodes@.take(k as int).contains(node) {
                    let t = all_nodes@.take(k as int);
                    let m = choose|m: int| 0 <= m < t.len() && t[m] == node;
                    assert(all_nodes@[m] == all_nodes@[k as int]);
                }
            }
        }
        if !in_cluster {
            let cost = sum_distances_to(&dists, node, &cluster);
            proof {
                lemma_sum_to_range(dm, node, cluster@);
            }
            let ghost cn0 = cand_nodes@;
            cand_nodes.push(node);
            cand_costs.push(cost);
            proof {
                assert(!cluster@.contains(node));
                let t1 = all_nodes@.take(k + 1);
                assert(t1[k as int] == node);
                assert forall|x: i64| #[trigger] cand_nodes@.contains(x)
                    <==> (all_nodes@.take(k + 1).contains(x) && !cluster@.contains(x)) by {
                    if cand_nodes@.contains(x) && x != node {
                        let m = choose|m: int| 0 <= m < cand_nodes@.len() && cand_nodes@[m] == x;
                        assert(cn0[m] == x);
                        assert(cn0.contains(x));
                        let t0 = all_nodes@.take(k as int);
                        let i = choose|i: int| 0 <= i < t0.len() && t0[i] == x;
                        assert(t1[i] == x);
                    }
                    if all_nodes@.take(k + 1).contains(x) && !cluster@.contains(x) {
                        if x == node {
                            assert(cand_nodes@[cn0.len() as int] == x);
                        } else {
                            let t = all_nodes@.take(k + 1);
                            let m = choose|m: int| 0 <= m < t.len() && t[m] == x;
                            assert(all_nodes@.take(k as int)[m] == x);
                            assert(all_nodes@.take(k as int).contains(x));
                            assert(cn0.contains(x));
                            let m2 = choose|m2: int| 0 <= m2 < cn0.len() && cn0[m2] == x;
                            assert(cand_nodes@[m2] == x);
                        }
                    }
                }
                assert(!cn0.contains(node));
            }
        } else {
            proof {
                assert(cluster@.contains(node));
                assert forall|x: i64| #[trigger] cand_nodes@.contains(x)
                    <==> (all_nodes@.take(k + 1).contains(x) && !cluster@.contains(x)) by {
                    if all_nodes@.take(k + 1).contains(x) && x != node {
                        let t = all_nodes@.take(k + 1);
                        let m = choose|m: int| 0 <= m < t.len() && t[m] == x;
                        assert(all_nodes@.take(k as int)[m] == x);
                    }
                }
            }
        }
        k = k + 1;
    }
    proof {
        assert(all_nodes@.take(all_nodes.len() as int) =~= all_nodes@);
        if !found {
            assert(1 <= n);
        }
    }
    proof {
        keys.unique_seq_to_set();
        assert(keys.len() == neighbors@.len());
    }
    let target = n as usize;
    let ghost base = greedy_base(g, dm, keys);
    while cluster.len() < target
        invariant
            keys == all_nodes@,
            keys.no_duplicates(),
            is_key_order(keys, g),
            g == adjacency(neighbors),
            dm == distance_table(&dists),
            nonnegative_table(dm),
            target == n,
            n <= keys.len(),
            n <= i64::MAX,
            base == greedy_base(g, dm, keys),
            base == 0 ==> cluster@.len() >= 0,
            cluster@.len() >= base,
            base == 2 ==> {
                &&& eligible_pair(g, dm, keys, cluster@[0], cluster@[1])
                &&& forall|u: i64, v: i64| #[trigger] eligible_pair(g, dm, keys, u, v)
                    ==> pair_score(dm, keys, cluster@[0], cluster@[1]) <= pair_score(dm, keys, u, v)
            },
            cluster@.len() == base || cluster@.len() <= n,
            base == 2 ==> cluster@[0] == start_pair[0] && cluster@[1] == start_pair[1],
            base == 2 ==> first_pair(g, dm, keys, neighbors, start_pair[0], start_pair[1]),
            keys == key_order(neighbors),
            cluster@.no_duplicates(),
            forall|i: int| 0 <= i < cluster@.len() ==> g.contains_key(#[trigger] cluster@[i]),
            forall|i: int, w: i64|
                #![trigger sum_to(dm, w, cluster@.take(i))]
                base <= i < cluster@.len() && g.contains_key(w) && !cluster@.take(i).contains(w) && w != cluster@[i]
                ==> key_before(sum_to(dm, cluster@[i], cluster@.take(i)), cluster@[i], sum_to(dm, w, cluster@.take(i)), w),
            cand_nodes.len() == cand_costs.len(),
            cand_nodes@.no_duplicates(),
            forall|x: i64| #[trigger] cand_nodes@.contains(x) <==> (keys.contains(x) && !cluster@.contains(x)),
            forall|j: int| 0 <= j < cand_nodes.len() ==> #[trigger] cand_costs@[j] == sum_to(dm, cand_nodes@[j], cluster@),
            forall|j: int| 0 <= j < cand_nodes.len() ==> 0 <= #[trigger] cand_costs@[j] <= 0x7fff_ffff_ffff_ffff * cluster@.len(),
        decreases target - cluster.len(),
    {
        proof {
            if cand_nodes.len() == 0 {
                assert(keys.to_set() =~= cluster@.to_set()) by {
                    assert forall|x: i64| keys.to_set().contains(x) implies cluster@.to_set().contains(x) by {
                        assert(!cand_nodes@.contains(x));
                    }
                    assert forall|x: i64| cluster@.to_set().contains(x) implies keys.to_set().contains(x) by {
                        let i = choose|i: int| 0 <= i < cluster@.len() && cluster@[i] == x;
                        assert(g.contains_key(cluster@[i]));
                    }
                }
                keys.unique_seq_to_set();
                cluster@.unique_seq_to_set();
                assert(false);
            }
        }
        let m = position_of_least(&cand_nodes, &cand_costs);
        let best = cand_nodes[m];
        let ghost cl0 = cluster@;
        let ghost cn0 = cand_nodes@;
        let ghost cc0 = cand_costs@;
        proof {
            assert(cn0.contains(best));
        }
        cluster.push(best);
        cand_nodes.remove(m);
        cand_costs.remove(m);
        let mut j: usize = 0;
        while j < cand_nodes.len()
            invariant
                0 <= j <= cand_nodes.len(),
                cand_nodes.len() == cand_costs.len(),
                cand_nodes.len() + 1 == cn0.len(),
                dm == distance_table(&dists),
                nonnegative_table(dm),
                cluster@ == cl0.push(best),
                cl0.len() < n <= i64::MAX,
                forall|q: int| 0 <= q < cand_nodes.len() ==> #[trigger] cand_nodes@[q] == cn0[if q < m { q } else { q + 1 }],
                forall|q: int| j <= q < cand_nodes.len() ==> #[trigger] cand_costs@[q] == cc0[if q < m { q } else { q + 1 }],
                forall|q: int| 0 <= q < j ==> #[trigger] cand_costs@[q] == sum_to(dm, cand_nodes@[q], cluster@),
                forall|q: int| 0 <= q < j ==> 0 <= #[trigger] cand_costs@[q] <= 0x7fff_ffff_ffff_ffff * cluster@.len(),
                forall|q: int| 0 <= q < cn0.len() ==> #[trigger] cc0[q] == sum_to(dm, cn0[q], cl0),
                forall|q: int| 0 <= q < cn0.len() ==> 0 <= #[trigger] cc0[q] <= 0x7fff_ffff_ffff_ffff * cl0.len(),
            decreases cand_nodes.len() - j,
        {
            let q0: Ghost<int> = Ghost(if j < m { j as int } else { j + 1 });
            let d = lookup_distance(&dists, cand_nodes[j], best);
            proof {
                assert(cand_costs@[j as int] == cc0[q0@]);
                assert(cluster@.drop_last() =~= cl0);
                assert(d >= 0) by {
                    if dm.contains_key(cand_nodes@[j as int]) && dm[cand_nodes@[j as int]].contains_key(best) {
                    }
                }
                lemma_sum_fits(cl0.len() + 1 as int);
                assert(0x7fff_ffff_ffff_ffff * (cl0.len() + 1) == 0x7fff_ffff_ffff_ffff * cl0.len() + 0x7fff_ffff_ffff_ffff) by (nonlinear_arith);
            }
            let updated = cand_costs[j] + d as i128;
            cand_costs.set(j, updated);
            j = j + 1;
        }
        proof {
            assert(cluster@.take(cl0.len() as int) =~= cl0);
            assert forall|x: i64| #[trigger] cand_nodes@.contains(x) <==> (keys.contains(x) && !cluster@.contains(x)) by {
                if cand_nodes@.contains(x) {
                    let q = choose|q: int| 0 <= q < cand_nodes@.len() && cand_nodes@[q] == x;
                    let q1 = if q < m { q } else { q + 1 };
                    assert(cn0[q1] == x);
                    assert(cn0.contains(x));
                    assert(x != best) by {
                        assert(cn0[m as int] == best);
                    }
                    assert(!cl0.contains(x));
                    assert(!cluster@.contains(x)) by {
                        if cluster@.contains(x) {
                            let i = choose|i: int| 0 <= i < cluster@.len() && cluster@[i] == x;
                            if i < cl0.len() {
                                assert(cl0[i] == x);
                            }
                        }
                    }
                }
                if keys.contains(x) && !cluster@.contains(x) {
                    assert(!cl0.contains(x)) by {
                        if cl0.contains(x) {
                            let i = choose|i: int| 0 <= i < cl0.len() && cl0[i] == x;
                            assert(cluster@[i] == x);
                        }
                    }
                    assert(cn0.contains(x));
                    let q1 = choose|q1: int| 0 <= q1 < cn0.len() && cn0[q1] == x;
                    assert(q1 != m) by {
                        assert(cluster@[cl0.len() as int] == best);
                    }
                    let q = if q1 < m { q1 } else { q1 - 1 };
                    assert(cand_nodes@[q] == x);
                }
            }
            assert(cand_nodes@.no_duplicates()) by {
                assert forall|p: int, q: int| 0 <= p < q < cand_nodes@.len() implies cand_nodes@[p] != cand_nodes@[q] by {
                    let p1 = if p < m { p } else { p + 1 };
                    let q1 = if q < m { q } else { q + 1 };
                    assert(cand_nodes@[p] == cn0[p1] && cand_nodes@[q] == cn0[q1]);
                }
            }
            assert(cluster@.no_duplicates()) by {
                assert(!cl0.contains(best));
                assert forall|p: int, q: int| 0 <= p < q < cluster@.len() implies cluster@[p] != cluster@[q] by {
                    if q == cl0.len() {
                        assert(cl0[p] == cluster@[p]);
                    }
                }
            }
            assert forall|i: int| 0 <= i < cluster@.len() implies g.contains_key(#[trigger] cluster@[i]) by {
                if i == cl0.len() {
                    assert(keys.to_set().contains(best));
                } else {
                    assert(cluster@[i] == cl0[i]);
                }
            }
            assert forall|i: int, w: i64|
                #![trigger sum_to(dm, w, cluster@.take(i))]
                base <= i < cluster@.len() && g.contains_key(w) && !cluster@.take(i).contains(w) && w != cluster@[i]
                implies key_before(sum_to(dm, cluster@[i], cluster@.take(i)), cluster@[i], sum_to(dm, w, cluster@.take(i)), w) by {
                if i < cl0.len() {
                    assert(cluster@.take(i) =~= cl0.take(i));
                    assert(sum_to(dm, w, cl0.take(i)) == sum_to(dm, w, cluster@.take(i)));
                    assert(cluster@[i] == cl0[i]);
                } else {
                    assert(keys.to_set().contains(w));
                    if w != best {
                        assert(cn0.contains(w));
                        let q = choose|q: int| 0 <= q < cn0.len() && cn0[q] == w;
                        assert(key_before(cc0[m as int] as int, cn0[m as int], cc0[q] as int, cn0[q]));
                    }
                }
            }
        }
    }
    proof {
        assert(cluster@.len() == if n > base { n as int } else { base }) by {
            if base == 2 && n <= 2 {
            }
        }
        assert(is_greedy_cluster(g, n as int, dm, keys, cluster@));
        assert(greedy_base(g, dm, keys) == 2 ==> first_pair(g, dm, keys, neighbors, cluster@[0], cluster@[1]));
        if base == 0 {
            assert(1 <= n);
        }
        assert forall|i: int| 0 <= i < cluster.len() implies dists@.contains_key(#[trigger] cluster@[i]) by {
            assert(g.contains_key(cluster@[i]));
        }
    }
    let ordered = order_cluster(&cluster, &dists);
    proof {
        assert(is_center_order(dm, cluster@, ordered@));
        assert(is_greedy_result(g, n as int, dm, ordered@));
        assert(is_greedy_cluster(g, n as int, dm, keys, cluster@));
        assert(greedy_outcome(neighbors, n as int, dm, ordered@));
    }
    (ordered, dists)
}


/// The number of ways to choose `k` things out of `n`.
pub open spec fn choose_count(n: nat, k: nat) -> nat
    decreases n,
{
    if k == 0 {
        1
    } else if n == 0 {
        0
    } else {
        choose_count((n - 1) as nat, (k - 1) as nat) + choose_count((n - 1) as nat, k)
    }
}

/// `num_integer::binomial` on `usize`.
///
/// Trusted: the contract says it returns the binomial coefficient, which is
/// what the crate documents. Its loop builds `C(n, d)` for `d` up to
/// `min(k, n - k)`, and no intermediate value exceeds the final one, so it
/// does not overflow when the result fits in a `usize`; the `requires` asks
/// exactly that.
#[verifier::external_body]
fn binomial_coefficient(n: usize, k: usize) -> (r: usize)
    requires
        choose_count(n as nat, k as nat) <= usize::MAX,
    ensures
        r == choose_count(n as nat, k as nat),
{
    num_integer::binomial(n, k)
}

/// Whether two strings hold the same characters.
fn same_text(a: &str, b: &str) -> (r: bool)
    ensures
        r == (a@ == b@),
{
    let x = a.as_bytes();
    let y = b.as_bytes();
    proof {
        vstd::utf8::encode_utf8_decode_utf8(a@);
        vstd::utf8::encode_utf8_decode_utf8(b@);
    }
    if x.len() != y.len() {
        return false;
    }
    let mut i: usize = 0;
    while i < x.len()
        invariant
            0 <= i <= x.len(),
            x.len() == y.len(),
            x@ == vstd::utf8::encode_utf8(a@),
            y@ == vstd::utf8::encode_utf8(b@),
            forall|j: int| 0 <= j < i ==> x@[j] == y@[j],
        decreases x.len() - i,
    {
        if x[i] != y[i] {
            proof {
                assert(x@ != y@);
            }
            return false;
        }
        i = i + 1;
    }
    proof {
        assert(x@ =~= y@);
    }
    true
}

/// Whether `find_closest_cluster` runs the exact search: always, unless the
/// method is `"auto"` and there are more than 50000 combinations to try.
pub open spec fn uses_exact_search(num_keys: nat, n: int, method: Seq<char>) -> bool {
    method != "auto"@ || choose_count(num_keys, n as usize as nat) <= 50000
}

/// The closest cluster of `n` nodes: by the exact search, or, when `method`
/// is `"auto"` and there are more than 50000 `n`-combinations of the keys, by
/// the greedy search.
pub fn find_closest_cluster(n: i64, neighbors: &HashMap<i64, HashSet<i64>>, method: &str) -> (res: (
    Vec<i64>,
    HashMap<i64, HashMap<i64, i64>>,
))
    requires
        method@ == "auto"@ ==> choose_count(neighbors@.len(), n as usize as nat) <= usize::MAX,
        uses_exact_search(neighbors@.len(), n as int, method@) ==> exact_search_defined(adjacency(neighbors), n as int),
        !uses_exact_search(neighbors@.len(), n as int, method@) ==> greedy_search_defined(adjacency(neighbors), n as int),
    ensures
        is_all_pairs_table(adjacency(neighbors), distance_table(&res.1)),
        uses_exact_search(neighbors@.len(), n as int, method@)
            ==> is_exact_cluster(adjacency(neighbors), n as int, distance_table(&res.1), res.0@),
        uses_exact_search(neighbors@.len(), n as int, method@)
            ==> exact_result(key_order(neighbors), n as int, distance_table(&res.1), res.0@),
        !uses_exact_search(neighbors@.len(), n as int, method@)
            ==> is_greedy_result(adjacency(neighbors), n as int, distance_table(&res.1), res.0@),
        !uses_exact_search(neighbors@.len(), n as int, method@)
            ==> greedy_outcome(neighbors, n as int, distance_table(&res.1), res.0@),
{
    proof {
        assert(adjacency(neighbors).dom() =~= neighbors@.dom());
    }
    let num_nodes = neighbors.len();
    let mut exact = true;
    if same_text(method, "auto") {
        let count = binomial_coefficient(num_nodes, n as usize);
        exact = count <= 50000;
    }
    if exact {
        find_closest_cluster_exact(n, neighbors)
    } else {
        find_closest_cluster_greedy(n, neighbors)
    }
}

} // verus!
