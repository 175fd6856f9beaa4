//! The graph model shared by the clustering and routing code.
//!
//! A coupling graph is held as a map from each node to the set of its
//! successors. Its mathematical model is a `Map<i64, Set<i64>>`; a node that
//! is not a key has no successors.
use std::collections::{HashMap, HashSet};
use vstd::prelude::*;

verus! {

broadcast use vstd::std_specs::hash::group_hash_axioms;

/// The model of a neighbour map: each key to the set of its successors.
pub open spec fn adjacency(g: &HashMap<i64, HashSet<i64>>) -> Map<i64, Set<i64>> {
    g@.map_values(|s: HashSet<i64>| s@)
}

/// The model of a nested distance map.
pub open spec fn distance_table(d: &HashMap<i64, HashMap<i64, i64>>) -> Map<i64, Map<i64, i64>> {
    d@.map_values(|m: HashMap<i64, i64>| m@)
}

/// The successors of `u`: empty when `u` is not a key.
pub open spec fn succs(g: Map<i64, Set<i64>>, u: i64) -> Set<i64> {
    if g.contains_key(u) {
        g[u]
    } else {
        Set::empty()
    }
}

/// `p` is a non-empty walk in `g`: each node is followed by one of its successors.
pub open spec fn is_walk(g: Map<i64, Set<i64>>, p: Seq<i64>) -> bool {
    &&& p.len() >= 1
    &&& forall|i: int| 0 <= i < p.len() - 1 ==> #[trigger] succs(g, p[i]).contains(p[i + 1])
}

/// `p` is a walk in `g` from `s` to `t`.
pub open spec fn walk_between(g: Map<i64, Set<i64>>, p: Seq<i64>, s: i64, t: i64) -> bool {
    &&& is_walk(g, p)
    &&& p[0] == s
    &&& p.last() == t
}

/// `t` can be reached from `s` in `g`.
pub open spec fn reachable(g: Map<i64, Set<i64>>, s: i64, t: i64) -> bool {
    exists|p: Seq<i64>| #[trigger] walk_between(g, p, s, t)
}

/// The fewest edges on a walk from `s` to `t` in `g` is `d`.
pub open spec fn is_distance(g: Map<i64, Set<i64>>, s: i64, t: i64, d: int) -> bool {
    &&& exists|p: Seq<i64>| #[trigger] walk_between(g, p, s, t) && p.len() == d + 1
    &&& forall|p: Seq<i64>| #[trigger] walk_between(g, p, s, t) ==> p.len() >= d + 1
}

/// `m` maps exactly the nodes reachable from `s` to their distance from `s`.
pub open spec fn is_distance_map(g: Map<i64, Set<i64>>, s: i64, m: Map<i64, i64>) -> bool {
    &&& forall|t: i64| m.contains_key(t) <==> reachable(g, s, t)
    &&& forall|t: i64| #[trigger] m.contains_key(t) ==> is_distance(g, s, t, m[t] as int)
}

/// Every node that is a key or a successor of a key.
pub open spec fn node_universe(g: Map<i64, Set<i64>>) -> Set<i64> {
    Set::new(|w: i64| g.contains_key(w) || exists|k: i64| g.contains_key(k) && #[trigger] g[k].contains(w))
}

/// Every successor set of `g` is finite.
pub open spec fn finite_graph(g: Map<i64, Set<i64>>) -> bool {
    &&& g.dom().finite()
    &&& forall|k: i64| #[trigger] g.contains_key(k) ==> g[k].finite()
}

pub proof fn lemma_node_universe_finite(g: Map<i64, Set<i64>>)
    requires
        finite_graph(g),
    ensures
        node_universe(g).finite(),
    decreases g.dom().len(),
{
    if g.dom().len() == 0 {
        assert(g.dom() =~= Set::empty());
        assert(node_universe(g) =~= Set::empty());
    } else {
        let k = g.dom().choose();
        let h = g.remove(k);
        lemma_node_universe_finite(h);
        assert(node_universe(g) =~= node_universe(h).union(g[k]).insert(k)) by {
            assert forall|w: i64| #[trigger] node_universe(g).contains(w) implies node_universe(h).union(g[k]).insert(k).contains(w) by {
                if w != k && !g[k].contains(w) {
                    if !g.contains_key(w) {
                        let k2 = choose|k2: i64| g.contains_key(k2) && #[trigger] g[k2].contains(w);
                        assert(h.contains_key(k2) && h[k2].contains(w));
                    }
                }
            }
            assert forall|w: i64| #[trigger] node_universe(h).union(g[k]).insert(k).contains(w) implies node_universe(g).contains(w) by {
                if node_universe(h).contains(w) && !h.contains_key(w) {
                    let k2 = choose|k2: i64| h.contains_key(k2) && #[trigger] h[k2].contains(w);
                    assert(g.contains_key(k2) && g[k2].contains(w));
                }
            }
        }
    }
}

/// A walk can be extended by one of the last node's successors.
pub proof fn lemma_walk_push(g: Map<i64, Set<i64>>, p: Seq<i64>, s: i64, u: i64, w: i64)
    requires
        walk_between(g, p, s, u),
        succs(g, u).contains(w),
    ensures
        walk_between(g, p.push(w), s, w),
{
    let q = p.push(w);
    assert forall|i: int| 0 <= i < q.len() - 1 implies #[trigger] succs(g, q[i]).contains(q[i + 1]) by {
        if i < p.len() - 1 {
            assert(q[i] == p[i] && q[i + 1] == p[i + 1]);
        }
    }
}

/// A non-empty prefix of a walk is a walk.
pub proof fn lemma_walk_prefix(g: Map<i64, Set<i64>>, p: Seq<i64>, s: i64, t: i64, n: int)
    requires
        walk_between(g, p, s, t),
        1 <= n <= p.len(),
    ensures
        walk_between(g, p.take(n), s, p[n - 1]),
{
    let q = p.take(n);
    assert forall|i: int| 0 <= i < q.len() - 1 implies #[trigger] succs(g, q[i]).contains(q[i + 1]) by {
        assert(q[i] == p[i] && q[i + 1] == p[i + 1]);
    }
}

/// A walk that starts inside `inside` and ends outside it leaves it somewhere.
pub proof fn lemma_walk_exit(p: Seq<i64>, inside: Set<i64>) -> (i: int)
    requires
        p.len() >= 1,
        inside.contains(p[0]),
        !inside.contains(p.last()),
    ensures
        0 <= i < p.len() - 1,
        inside.contains(p[i]),
        !inside.contains(p[i + 1]),
    decreases p.len(),
{
    if inside.contains(p[p.len() - 2]) {
        p.len() - 2
    } else {
        let q = p.drop_last();
        let i = lemma_walk_exit(q, inside);
        assert(q[i] == p[i] && q[i + 1] == p[i + 1]);
        i
    }
}

/// Every edge of `g` also runs the other way.
pub open spec fn is_symmetric(g: Map<i64, Set<i64>>) -> bool {
    forall|u: i64, w: i64| #[trigger] succs(g, u).contains(w) ==> succs(g, w).contains(u)
}

/// A walk read backwards is a walk when every edge runs both ways.
proof fn lemma_walk_reverse(g: Map<i64, Set<i64>>, p: Seq<i64>, s: i64, t: i64)
    requires
        is_symmetric(g),
        walk_between(g, p, s, t),
    ensures
        walk_between(g, p.reverse(), t, s),
{
    let q = p.reverse();
    assert forall|i: int| 0 <= i < q.len() - 1 implies #[trigger] succs(g, q[i]).contains(q[i + 1]) by {
        let j = p.len() - 2 - i;
        assert(succs(g, p[j]).contains(p[j + 1]));
        assert(q[i] == p[j + 1] && q[i + 1] == p[j]);
    }
}

/// Two walks joined where the first ends and the second starts.
proof fn lemma_walk_join(g: Map<i64, Set<i64>>, p: Seq<i64>, q: Seq<i64>, s: i64, m: i64, t: i64)
    requires
        walk_between(g, p, s, m),
        walk_between(g, q, m, t),
    ensures
        walk_between(g, p + q.drop_first(), s, t),
        (p + q.drop_first()).len() == p.len() + q.len() - 1,
{
    let r = p + q.drop_first();
    assert forall|i: int| 0 <= i < r.len() - 1 implies #[trigger] succs(g, r[i]).contains(r[i + 1]) by {
        if i < p.len() - 1 {
            assert(r[i] == p[i] && r[i + 1] == p[i + 1]);
        } else if i == p.len() - 1 {
            assert(r[i] == q[0]);
            assert(r[i + 1] == q[1]);
        } else {
            let j = i - p.len() + 1;
            assert(r[i] == q[j] && r[i + 1] == q[j + 1]);
        }
    }
    if q.len() == 1 {
        assert(r.last() == p.last());
    } else {
        assert(r.last() == q.last());
    }
}

/// Distances in a graph whose edges run both ways are symmetric: if the
/// distance from `s` to `t` is `d`, so is the distance from `t` to `s`.
pub proof fn lemma_distance_symmetric(g: Map<i64, Set<i64>>, s: i64, t: i64, d: int)
    requires
        is_symmetric(g),
        is_distance(g, s, t, d),
    ensures
        is_distance(g, t, s, d),
{
    let p = choose|p: Seq<i64>| #[trigger] walk_between(g, p, s, t) && p.len() == d + 1;
    lemma_walk_reverse(g, p, s, t);
    assert(walk_between(g, p.reverse(), t, s) && p.reverse().len() == d + 1);
    assert forall|q: Seq<i64>| #[trigger] walk_between(g, q, t, s) implies q.len() >= d + 1 by {
        lemma_walk_reverse(g, q, t, s);
        assert(walk_between(g, q.reverse(), s, t));
    }
}

/// Distances obey the triangle inequality: going from `u` to `w` takes no
/// more edges than going through `v`.
pub proof fn lemma_distance_triangle(g: Map<i64, Set<i64>>, u: i64, v: i64, w: i64, d1: int, d2: int, d3: int)
    requires
        is_distance(g, u, v, d1),
        is_distance(g, v, w, d2),
        is_distance(g, u, w, d3),
    ensures
        d3 <= d1 + d2,
{
    let p = choose|p: Seq<i64>| #[trigger] walk_between(g, p, u, v) && p.len() == d1 + 1;
    let q = choose|q: Seq<i64>| #[trigger] walk_between(g, q, v, w) && q.len() == d2 + 1;
    lemma_walk_join(g, p, q, u, v, w);
    assert(walk_between(g, p + q.drop_first(), u, w));
}

/// A distance is unique.
pub proof fn lemma_distance_unique(g: Map<i64, Set<i64>>, s: i64, t: i64, d1: int, d2: int)
    requires
        is_distance(g, s, t, d1),
        is_distance(g, s, t, d2),
    ensures
        d1 == d2,
{
    let p = choose|p: Seq<i64>| #[trigger] walk_between(g, p, s, t) && p.len() == d1 + 1;
    let q = choose|q: Seq<i64>| #[trigger] walk_between(g, q, s, t) && q.len() == d2 + 1;
}

/// Distances are consistent along every edge: a successor of a node reached
/// from `s` is reached too, at most one edge further.
pub proof fn lemma_distance_edge(g: Map<i64, Set<i64>>, s: i64, m: Map<i64, i64>, u: i64, w: i64)
    requires
        is_distance_map(g, s, m),
        m.contains_key(u),
        succs(g, u).contains(w),
    ensures
        m.contains_key(w),
        m[w] <= m[u] + 1,
{
    assert(is_distance(g, s, u, m[u] as int));
    let p = choose|p: Seq<i64>| #[trigger] walk_between(g, p, s, u) && p.len() == m[u] + 1;
    lemma_walk_push(g, p, s, u, w);
    assert(reachable(g, s, w));
    assert(is_distance(g, s, w, m[w] as int));
    assert(walk_between(g, p.push(w), s, w));
}

/// A source has one map of distances: so each row of an all-pairs table is
/// what the single-source search returns for that source.
pub proof fn lemma_distance_map_unique(g: Map<i64, Set<i64>>, s: i64, m1: Map<i64, i64>, m2: Map<i64, i64>)
    requires
        is_distance_map(g, s, m1),
        is_distance_map(g, s, m2),
    ensures
        m1 == m2,
{
    assert forall|t: i64| #[trigger] m1.contains_key(t) implies m2.contains_key(t) && m1[t] == m2[t] by {
        lemma_distance_unique(g, s, t, m1[t] as int, m2[t] as int);
    }
    assert(m1 =~= m2);
}

/// The order in which a set's iterator yields its members.
pub open spec fn member_order(s: &HashSet<i64>) -> Seq<i64> {
    vstd::std_specs::hash::into_iter_hash_keys(vstd::std_specs::hash::spec_hash_keys_iter(s))
}

/// The order in which a map's key iterator yields its keys.
pub open spec fn key_order<K, V>(m: &HashMap<K, V>) -> Seq<K> {
    vstd::std_specs::hash::into_iter_keys(vstd::std_specs::hash::spec_keys_iter(m))
}

/// The members of a set of nodes, in the set's own iteration order.
pub fn set_members(s: &HashSet<i64>) -> (r: Vec<i64>)
    ensures
        r@ == member_order(s),
        r@.to_set() == s@,
        r@.no_duplicates(),
{
    let mut r: Vec<i64> = Vec::new();
    let ghost all = vstd::std_specs::iter::IteratorSpec::remaining(&s.iter()).unref();
    for x in it: s.iter()
        invariant
            it.seq().unref() == all,
            r@ == all.take(it.index() as int),
    {
        proof {
            assert(*x == all[it.index() as int]);
        }
        r.push(*x);
    }
    proof {
        assert(r@ =~= all);
    }
    r
}

/// The keys of a map, in the map's own iteration order.
pub fn map_keys<K: Copy, V>(m: &HashMap<K, V>) -> (r: Vec<K>)
    requires
        vstd::std_specs::hash::obeys_key_model::<K>(),
    ensures
        r@ == key_order(m),
        r@.to_set() == m@.dom(),
        r@.no_duplicates(),
{
    let mut r: Vec<K> = Vec::new();
    let ghost all = vstd::std_specs::iter::IteratorSpec::remaining(&m.keys()).unref();
    for x in it: m.keys()
        invariant
            it.seq().unref() == all,
            r@ == all.take(it.index() as int),
    {
        proof {
            assert(*x == all[it.index() as int]);
        }
        r.push(*x);
    }
    proof {
        assert(r@ =~= all);
    }
    r
}

} // verus!
