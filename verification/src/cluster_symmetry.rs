//! A cluster's cost does not depend on the order of its nodes when the
//! distance table is symmetric.
use vstd::prelude::*;
use crate::cluster_finding::{cluster_connected, cluster_total, pairs_cost, row_cost, sum_to, table_entry};

verus! {

broadcast use vstd::seq_lib::group_seq_properties;

/// The table gives the same entry from `a` to `b` as from `b` to `a`, for
/// every pair of nodes (a missing entry counting as `i64::MAX`).
pub open spec fn symmetric_table(dm: Map<i64, Map<i64, i64>>) -> bool {
    forall|a: i64, b: i64| #[trigger] table_entry(dm, a, b) == table_entry(dm, b, a)
}

/// The sum of the table's distances from each node of `xs` to `y`.
pub open spec fn sum_from(dm: Map<i64, Map<i64, i64>>, xs: Seq<i64>, y: i64) -> int
    decreases xs.len(),
{
    if xs.len() == 0 {
        0
    } else {
        sum_from(dm, xs.drop_last(), y) + table_entry(dm, xs.last(), y)
    }
}

/// Every node of `xs` has an entry from `x` below `i64::MAX`.
pub open spec fn linked(dm: Map<i64, Map<i64, i64>>, x: i64, xs: Seq<i64>) -> bool {
    forall|i: int| 0 <= i < xs.len() ==> #[trigger] table_entry(dm, x, xs[i]) != i64::MAX
}

proof fn lemma_row_drop_last(dm: Map<i64, Map<i64, i64>>, c: Seq<i64>, i: int, j: int)
    requires
        c.len() >= 1,
        0 <= i,
        j <= c.len() - 1,
    ensures
        row_cost(dm, c, i, j) == row_cost(dm, c.drop_last(), i, j),
    decreases j - i,
{
    if j > i + 1 {
        lemma_row_drop_last(dm, c, i, j - 1);
    }
}

proof fn lemma_pairs_drop_last(dm: Map<i64, Map<i64, i64>>, c: Seq<i64>, m: int)
    requires
        c.len() >= 1,
        0 <= m <= c.len() - 1,
    ensures
        pairs_cost(dm, c, m) == pairs_cost(dm, c.drop_last(), m) + sum_from(dm, c.drop_last().take(m), c.last()),
    decreases m,
{
    let d = c.drop_last();
    if m > 0 {
        lemma_pairs_drop_last(dm, c, m - 1);
        lemma_row_drop_last(dm, c, m - 1, c.len() - 1);
        assert(d.take(m).drop_last() =~= d.take(m - 1));
    } else {
        assert(d.take(0) =~= Seq::<i64>::empty());
    }
}

/// The cost of a cluster is the cost without its last node plus that node's
/// distances from the others.
proof fn lemma_total_drop_last(dm: Map<i64, Map<i64, i64>>, c: Seq<i64>)
    requires
        c.len() >= 1,
    ensures
        cluster_total(dm, c) == cluster_total(dm, c.drop_last()) + sum_from(dm, c.drop_last(), c.last()),
{
    lemma_pairs_drop_last(dm, c, c.len() - 1);
    assert(c.drop_last().take(c.len() - 1) =~= c.drop_last());
}

proof fn lemma_sum_from_symmetric(dm: Map<i64, Map<i64, i64>>, xs: Seq<i64>, y: i64)
    requires
        symmetric_table(dm),
    ensures
        sum_from(dm, xs, y) == sum_to(dm, y, xs),
    decreases xs.len(),
{
    if xs.len() > 0 {
        lemma_sum_from_symmetric(dm, xs.drop_last(), y);
        assert(table_entry(dm, xs.last(), y) == table_entry(dm, y, xs.last()));
    }
}

proof fn lemma_sum_to_remove(dm: Map<i64, Map<i64, i64>>, b: i64, xs: Seq<i64>, k: int)
    requires
        0 <= k < xs.len(),
    ensures
        sum_to(dm, b, xs) == sum_to(dm, b, xs.remove(k)) + table_entry(dm, b, xs[k]),
    decreases xs.len(),
{
    if k == xs.len() - 1 {
        assert(xs.remove(k) =~= xs.drop_last());
    } else {
        lemma_sum_to_remove(dm, b, xs.drop_last(), k);
        assert(xs.remove(k).drop_last() =~= xs.drop_last().remove(k));
        assert(xs.remove(k).last() == xs.last());
    }
}

proof fn lemma_sum_to_permutation(dm: Map<i64, Map<i64, i64>>, b: i64, xs: Seq<i64>, ys: Seq<i64>)
    requires
        xs.to_multiset() == ys.to_multiset(),
    ensures
        sum_to(dm, b, xs) == sum_to(dm, b, ys),
    decreases ys.len(),
{
    xs.to_multiset_ensures();
    ys.to_multiset_ensures();
    if ys.len() > 0 {
        let y = ys.last();
        assert(ys.contains(y));
        lemma_shared_member(xs, ys, y);
        let k = choose|k: int| 0 <= k < xs.len() && xs[k] == y;
        lemma_sum_to_remove(dm, b, xs, k);
        assert(ys.remove(ys.len() - 1) =~= ys.drop_last());
        assert(xs.remove(k).to_multiset() == ys.drop_last().to_multiset());
        lemma_sum_to_permutation(dm, b, xs.remove(k), ys.drop_last());
    }
}

/// With a symmetric table, the cost of a cluster is the cost without its
/// `k`-th node plus that node's distances to the others.
proof fn lemma_total_remove(dm: Map<i64, Map<i64, i64>>, c: Seq<i64>, k: int)
    requires
        symmetric_table(dm),
        0 <= k < c.len(),
    ensures
        cluster_total(dm, c) == cluster_total(dm, c.remove(k)) + sum_to(dm, c[k], c.remove(k)),
    decreases c.len(),
{
    let d = c.drop_last();
    lemma_total_drop_last(dm, c);
    lemma_sum_from_symmetric(dm, d, c.last());
    if k == c.len() - 1 {
        assert(c.remove(k) =~= d);
    } else {
        let r = c.remove(k);
        lemma_total_remove(dm, d, k);
        assert(r.drop_last() =~= d.remove(k));
        assert(r.last() == c.last());
        lemma_total_drop_last(dm, r);
        lemma_sum_from_symmetric(dm, r.drop_last(), c.last());
        lemma_sum_to_remove(dm, c.last(), d, k);
        assert(table_entry(dm, c.last(), c[k]) == table_entry(dm, c[k], c.last()));
    }
}

/// With a symmetric table, a cluster is connected exactly when it is without
/// its `k`-th node and that node is linked to all the others.
proof fn lemma_connected_remove(dm: Map<i64, Map<i64, i64>>, c: Seq<i64>, k: int)
    requires
        symmetric_table(dm),
        0 <= k < c.len(),
    ensures
        cluster_connected(dm, c) <==> cluster_connected(dm, c.remove(k)) && linked(dm, c[k], c.remove(k)),
{
    let r = c.remove(k);
    if cluster_connected(dm, c) {
        assert forall|i: int, j: int| 0 <= i < j < r.len() implies #[trigger] table_entry(dm, r[i], r[j]) != i64::MAX by {
            let i2 = if i < k { i } else { i + 1 };
            let j2 = if j < k { j } else { j + 1 };
            assert(table_entry(dm, c[i2], c[j2]) != i64::MAX);
        }
        assert forall|i: int| 0 <= i < r.len() implies #[trigger] table_entry(dm, c[k], r[i]) != i64::MAX by {
            if i < k {
                assert(table_entry(dm, c[i], c[k]) != i64::MAX);
                assert(table_entry(dm, c[i], c[k]) == table_entry(dm, c[k], c[i]));
            } else {
                assert(table_entry(dm, c[k], c[i + 1]) != i64::MAX);
            }
        }
    }
    if cluster_connected(dm, r) && linked(dm, c[k], r) {
        assert forall|i: int, j: int| 0 <= i < j < c.len() implies #[trigger] table_entry(dm, c[i], c[j]) != i64::MAX by {
            if i == k {
                assert(table_entry(dm, c[k], r[j - 1]) != i64::MAX);
            } else if j == k {
                assert(table_entry(dm, c[k], r[i]) != i64::MAX);
                assert(table_entry(dm, c[k], c[i]) == table_entry(dm, c[i], c[k]));
            } else {
                let i2 = if i < k { i } else { i - 1 };
                let j2 = if j < k { j } else { j - 1 };
                assert(table_entry(dm, r[i2], r[j2]) != i64::MAX);
            }
        }
    }
}

proof fn lemma_shared_member(xs: Seq<i64>, ys: Seq<i64>, a: i64)
    requires
        xs.to_multiset() == ys.to_multiset(),
        ys.contains(a),
    ensures
        xs.contains(a),
{
    vstd::seq_lib::to_multiset_contains(xs, a);
    vstd::seq_lib::to_multiset_contains(ys, a);
}

proof fn lemma_linked_permutation(dm: Map<i64, Map<i64, i64>>, x: i64, xs: Seq<i64>, ys: Seq<i64>)
    requires
        xs.to_multiset() == ys.to_multiset(),
    ensures
        linked(dm, x, xs) <==> linked(dm, x, ys),
{
    xs.to_multiset_ensures();
    ys.to_multiset_ensures();
    if linked(dm, x, xs) {
        assert forall|i: int| 0 <= i < ys.len() implies #[trigger] table_entry(dm, x, ys[i]) != i64::MAX by {
            assert(ys.contains(ys[i]));
            lemma_shared_member(xs, ys, ys[i]);
            let k = choose|k: int| 0 <= k < xs.len() && xs[k] == ys[i];
            assert(table_entry(dm, x, xs[k]) != i64::MAX);
        }
    }
    if linked(dm, x, ys) {
        assert forall|i: int| 0 <= i < xs.len() implies #[trigger] table_entry(dm, x, xs[i]) != i64::MAX by {
            assert(xs.contains(xs[i]));
            lemma_shared_member(ys, xs, xs[i]);
            let k = choose|k: int| 0 <= k < ys.len() && ys[k] == xs[i];
            assert(table_entry(dm, x, ys[k]) != i64::MAX);
        }
    }
}

/// With a symmetric distance table, reordering the nodes of a cluster (any
/// permutation, repeated nodes included) changes neither whether every pair
/// has a distance nor the summed distance: `cluster_cost` gives the same
/// answer for both orders.
pub proof fn lemma_cluster_cost_permutation(dm: Map<i64, Map<i64, i64>>, nodes: Seq<i64>, p: Seq<i64>)
    requires
        symmetric_table(dm),
        p.to_multiset() == nodes.to_multiset(),
    ensures
        cluster_connected(dm, p) <==> cluster_connected(dm, nodes),
        cluster_total(dm, p) == cluster_total(dm, nodes),
    decreases p.len(),
{
    p.to_multiset_ensures();
    nodes.to_multiset_ensures();
    if p.len() == 0 {
        assert(nodes.len() == 0);
        assert(p =~= nodes);
    } else {
        let x = p.last();
        let pl = (p.len() - 1) as int;
        assert(p.contains(x));
        lemma_shared_member(nodes, p, x);
        let k = choose|k: int| 0 <= k < nodes.len() && nodes[k] == x;
        assert(p.remove(pl) =~= p.drop_last());
        assert(p.drop_last().to_multiset() == nodes.remove(k).to_multiset());
        lemma_cluster_cost_permutation(dm, nodes.remove(k), p.drop_last());
        lemma_total_remove(dm, p, pl);
        lemma_total_remove(dm, nodes, k);
        lemma_connected_remove(dm, p, pl);
        lemma_connected_remove(dm, nodes, k);
        lemma_sum_to_permutation(dm, x, p.drop_last(), nodes.remove(k));
        lemma_linked_permutation(dm, x, p.drop_last(), nodes.remove(k));
    }
}

} // verus!
