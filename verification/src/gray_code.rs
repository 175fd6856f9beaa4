//! The Gray-code sweep of a routed multiplexer: the order in which the
//! controls are relayed to the rotation qubit, and the CNOT cost of routing it.
use std::collections::{HashMap, VecDeque};
use vstd::prelude::*;
use crate::graph::distance_table;
use crate::routing::{RoutedMultiplexer, RoutingGate, GateName, cnot_gate, initial_parities, power_of_two, starting_parities};

verus! {

broadcast use vstd::std_specs::hash::group_hash_axioms;

/// One more than the highest bit below `j` in which `i` and `i - 1` differ, or
/// 0 when none does.
pub open spec fn highest_flip(i: i64, j: i64) -> i64
    decreases j,
{
    if j <= 0 {
        0
    } else if ((i >> ((j - 1) as u64)) & 1) != (((i - 1) as i64 >> ((j - 1) as u64)) & 1) {
        j
    } else {
        highest_flip(i, (j - 1) as i64)
    }
}

proof fn lemma_highest_flip_range(i: i64, j: i64)
    requires
        1 <= i,
        1 <= j,
    ensures
        1 <= highest_flip(i, j) <= j,
    decreases j,
{
    if j == 1 {
        assert(((i >> 0u64) & 1) != ((((i - 1) as i64) >> 0u64) & 1)) by (bit_vector)
            requires 1 <= i;
    } else {
        lemma_highest_flip_range(i, (j - 1) as i64);
    }
}

/// One more than the highest of the low `nc` bits in which `i` and `i - 1` differ.
fn highest_changed_bit(i: i64, nc: i64) -> (h: i64)
    requires
        1 <= i,
        0 <= nc <= 62,
    ensures
        h == highest_flip(i, nc),
{
    let mut h: i64 = 0;
    let mut j: i64 = 0;
    while j < nc
        invariant
            0 <= j <= nc <= 62,
            1 <= i,
            h == highest_flip(i, j),
        decreases nc - j,
    {
        if (i >> (j as u64)) & 1 != ((i - 1) >> (j as u64)) & 1 {
            h = j + 1;
        }
        j = j + 1;
    }
    h
}

/// The CNOT count of a CNOT between qubits `d` edges apart (see
/// `long_range_cnot_cost`).
pub open spec fn relay_cost(d: i64) -> int {
    if d > 1 {
        4 * d - 4
    } else {
        1
    }
}

/// How many relayed CNOTs the `j`-th control from the top needs: `2^max(1, nq - 2 - j)`.
pub open spec fn cnot_count(nq: i64, j: int) -> i64 {
    vstd::arithmetic::power2::pow2((if nq - 2 - j > 1 { nq - 2 - j } else { 1 }) as nat) as i64
}

/// The CNOT counts of the controls, top control first: `nq - 1` of them (one
/// when `nq < 2`).
pub open spec fn cnot_counts(nq: i64) -> Seq<i64> {
    Seq::new((if nq >= 2 { nq - 1 } else { 1 }) as nat, |j: int| cnot_count(nq, j))
}

/// `dl` lists each node of `a2g` other than `root` once, with its distance
/// `from_root`.
pub open spec fn lists_root_distances_at(
    a2g: Map<i64, usize>,
    root: i64,
    from_root: Map<i64, i64>,
    dl: Seq<(i64, i64)>,
) -> bool {
    &&& forall|k: int| 0 <= k < dl.len() ==> {
        &&& a2g.contains_key((#[trigger] dl[k]).0)
        &&& dl[k].0 != root
        &&& dl[k].1 == from_root[dl[k].0]
    }
    &&& forall|v: i64| a2g.contains_key(v) && v != root ==> exists|k: int| 0 <= k < dl.len() && (#[trigger] dl[k]).0 == v
    &&& forall|a: int, b: int| 0 <= a < b < dl.len() ==> (#[trigger] dl[a]).0 != (#[trigger] dl[b]).0
}

/// `dl` lists each placed node of `m` other than the root once, with its
/// distance from the root.
pub open spec fn lists_root_distances(m: &RoutedMultiplexer, dl: Seq<(i64, i64)>) -> bool {
    lists_root_distances_at(m.arch_to_grey_map@, m.root, m.pairwise_dists@[m.root]@, dl)
}

/// The distances of `dl` never decrease.
pub open spec fn sorted_by_distance(dl: Seq<(i64, i64)>) -> bool {
    forall|a: int, b: int| 0 <= a < b < dl.len() ==> (#[trigger] dl[a]).1 <= (#[trigger] dl[b]).1
}

/// `dl` lists each node of `a2g` other than `root` once, with its distance
/// `from_root`, nearest first.
pub open spec fn is_root_distance_list_at(
    a2g: Map<i64, usize>,
    root: i64,
    from_root: Map<i64, i64>,
    dl: Seq<(i64, i64)>,
) -> bool {
    lists_root_distances_at(a2g, root, from_root, dl) && sorted_by_distance(dl)
}

/// `dl` lists each placed node of `m` other than the root once, with its
/// distance from the root, nearest first.
pub open spec fn is_root_distance_list(m: &RoutedMultiplexer, dl: Seq<(i64, i64)>) -> bool {
    is_root_distance_list_at(m.arch_to_grey_map@, m.root, m.pairwise_dists@[m.root]@, dl)
}

/// Entry `i` of `a` is entry `p[i]` of `b`, and `p` is one-to-one onto the
/// positions of `b`.
pub open spec fn reorders_by(a: Seq<i64>, b: Seq<i64>, p: Seq<int>) -> bool {
    &&& p.len() == a.len()
    &&& a.len() == b.len()
    &&& forall|i: int| 0 <= i < p.len() ==> 0 <= #[trigger] p[i] < b.len() && a[i] == b[p[i]]
    &&& forall|i: int, j: int| 0 <= i < j < p.len() ==> #[trigger] p[i] != #[trigger] p[j]
}

/// `a` holds the entries of `b` in some order.
pub open spec fn is_reordering(a: Seq<i64>, b: Seq<i64>) -> bool {
    exists|p: Seq<int>| #[trigger] reorders_by(a, b, p)
}

/// The sum of `counts[k] * relay_cost(dl[k].1)` over `k < n`.
pub open spec fn weighted_cost(dl: Seq<(i64, i64)>, counts: Seq<i64>, n: int) -> int
    decreases n,
{
    if n <= 0 {
        0
    } else {
        weighted_cost(dl, counts, n - 1) + counts[n - 1] * relay_cost(dl[n - 1].1)
    }
}

/// The number of pairs that zipping `dl` with `counts` makes.
pub open spec fn zip_len(dl: Seq<(i64, i64)>, counts: Seq<i64>) -> int {
    if dl.len() < counts.len() {
        dl.len() as int
    } else {
        counts.len() as int
    }
}

/// The total cost of pairing the distances of `dl` with `counts`.
pub open spec fn gray_code_cost(dl: Seq<(i64, i64)>, counts: Seq<i64>) -> int {
    weighted_cost(dl, counts, zip_len(dl, counts))
}

/// Pairing `dl` with `counts` can be costed in `i64`: each paired distance is
/// at most `i64::MAX / 4` and the total fits.
pub open spec fn cost_fits(dl: Seq<(i64, i64)>, counts: Seq<i64>) -> bool {
    &&& forall|k: int| 0 <= k < zip_len(dl, counts) ==> (#[trigger] dl[k]).1 <= i64::MAX / 4
    &&& gray_code_cost(dl, counts) <= i64::MAX
}

/// The Gray-code CNOTs, their states, and the running parities after the first
/// `k` codes, for `nq` qubits with rotation qubit `nc`, placement `a2g` and
/// root `root`: code `i` flips the control whose bit `highest_flip(i, nc) - 1`
/// changed, that control being the node at that position of `dl`.
pub open spec fn gray_build_at(
    nq: i64,
    nc: i64,
    a2g: Map<i64, usize>,
    root: i64,
    dl: Seq<(i64, i64)>,
    k: int,
) -> (Seq<RoutingGate>, Seq<i64>, Map<i64, i64>)
    decreases k,
{
    if k <= 0 {
        (Seq::empty(), Seq::empty(), initial_parities(nq))
    } else {
        let (g, st, gs) = gray_build_at(nq, nc, a2g, root, dl, k - 1);
        let node = dl[highest_flip(k as i64, nc) - 1].0;
        let q = a2g[node];
        (g.push(cnot_gate(q, a2g[root])), st.push(gs[nc]), gs.insert(nc, gs[q as i64] ^ gs[nc]))
    }
}

/// The qubit relayed to the root at code `i` of the sweep.
pub open spec fn sweep_qubit(nc: i64, a2g: Map<i64, usize>, dl: Seq<(i64, i64)>, i: int) -> usize {
    a2g[dl[highest_flip(i as i64, nc) - 1].0]
}

/// Each state of the Gray-code sweep differs from the one before it in a
/// single bit, that of the control relayed at that step, and the first state
/// is the rotation qubit's own bit: consecutive Gray codes differ in one place.
/// The controls keep their own bits throughout.
pub proof fn lemma_gray_states_step(nq: i64, nc: i64, a2g: Map<i64, usize>, root: i64, dl: Seq<(i64, i64)>, k: int)
    requires
        0 <= nc < nq <= 63,
        0 <= k,
        forall|i: int| 1 <= i <= k ==> #[trigger] sweep_qubit(nc, a2g, dl, i) != nc as usize && sweep_qubit(nc, a2g, dl, i) < nq,
    ensures
        gray_build_at(nq, nc, a2g, root, dl, k).1.len() == k,
        k >= 1 ==> gray_build_at(nq, nc, a2g, root, dl, k).1[0] == vstd::arithmetic::power2::pow2(nc as nat) as i64,
        forall|j: int|
            0 <= j < k - 1 ==> #[trigger] gray_build_at(nq, nc, a2g, root, dl, k).1[j + 1] == (vstd::arithmetic::power2::pow2(
                sweep_qubit(nc, a2g, dl, j + 1) as nat,
            ) as i64) ^ gray_build_at(nq, nc, a2g, root, dl, k).1[j],
        forall|x: i64| #[trigger] gray_build_at(nq, nc, a2g, root, dl, k).2.contains_key(x) <==> 0 <= x < nq,
        forall|x: i64|
            0 <= x < nq && x != nc ==> #[trigger] gray_build_at(nq, nc, a2g, root, dl, k).2[x]
                == vstd::arithmetic::power2::pow2(x as nat) as i64,
        k >= 1 ==> gray_build_at(nq, nc, a2g, root, dl, k).2[nc] == (vstd::arithmetic::power2::pow2(
            sweep_qubit(nc, a2g, dl, k) as nat,
        ) as i64) ^ gray_build_at(nq, nc, a2g, root, dl, k).1[k - 1],
        k == 0 ==> gray_build_at(nq, nc, a2g, root, dl, k).2[nc] == vstd::arithmetic::power2::pow2(nc as nat) as i64,
    decreases k,
{
    if k > 0 {
        lemma_gray_states_step(nq, nc, a2g, root, dl, k - 1);
        let prev = gray_build_at(nq, nc, a2g, root, dl, k - 1);
        let cur = gray_build_at(nq, nc, a2g, root, dl, k);
        let q = sweep_qubit(nc, a2g, dl, k);
        assert(cur.1 == prev.1.push(prev.2[nc]));
        assert(cur.2 == prev.2.insert(nc, prev.2[q as i64] ^ prev.2[nc]));
        assert(prev.2[q as i64] == vstd::arithmetic::power2::pow2(q as nat) as i64);
        assert forall|j: int| 0 <= j < k - 1 implies #[trigger] cur.1[j + 1] == (vstd::arithmetic::power2::pow2(
            sweep_qubit(nc, a2g, dl, j + 1) as nat,
        ) as i64) ^ cur.1[j] by {
            if j + 1 < k - 1 {
                assert(cur.1[j + 1] == prev.1[j + 1]);
            } else {
                assert(cur.1[j + 1] == prev.2[nc]);
            }
        }
    }
}

/// The first `k` codes of `m`'s Gray-code sweep (see `gray_build_at`).
pub open spec fn gray_build(m: &RoutedMultiplexer, dl: Seq<(i64, i64)>, k: int) -> (Seq<RoutingGate>, Seq<i64>, Map<i64, i64>) {
    gray_build_at(m.num_qubits, m.num_control, m.arch_to_grey_map@, m.root, dl, k)
}

/// The Gray-code sweep can be built and costed for `nq` qubits with rotation
/// qubit `nc`, placement `a2g`, root `root` and distance table `dists`.
pub open spec fn gray_code_defined_at(
    nq: i64,
    nc: i64,
    a2g: Map<i64, usize>,
    root: i64,
    dists: Map<i64, Map<i64, i64>>,
) -> bool {
    &&& 1 <= nc <= 62
    &&& nc < nq <= 63
    &&& a2g.contains_key(root)
    &&& dists.contains_key(root)
    &&& forall|v: i64| a2g.contains_key(v) && v != root ==> {
        &&& #[trigger] dists[root].contains_key(v)
        &&& a2g[v] < nq
    }
    &&& a2g.dom().len() >= nc + 1
    &&& forall|dl: Seq<(i64, i64)>, counts: Seq<i64>|
        #![trigger is_root_distance_list_at(a2g, root, dists[root], dl), is_reordering(counts, cnot_counts(nq))]
        is_root_distance_list_at(a2g, root, dists[root], dl) && is_reordering(counts, cnot_counts(nq)) ==> cost_fits(dl, counts)
}

/// `get_optimal_gray_code` can run on `m`.
pub open spec fn gray_code_defined(m: &RoutedMultiplexer) -> bool {
    gray_code_defined_at(m.num_qubits, m.num_control, m.arch_to_grey_map@, m.root, distance_table(&m.pairwise_dists))
}

/// `c` is a cost that the Gray-code sweep may come to for `nq` qubits with
/// placement `a2g`, root `root` and distances `from_root` from the root.
pub open spec fn possible_cost_at(nq: i64, a2g: Map<i64, usize>, root: i64, from_root: Map<i64, i64>, c: int) -> bool {
    exists|dl: Seq<(i64, i64)>, counts: Seq<i64>|
        #![trigger is_root_distance_list_at(a2g, root, from_root, dl), is_reordering(counts, cnot_counts(nq))]
        is_root_distance_list_at(a2g, root, from_root, dl) && is_reordering(counts, cnot_counts(nq)) && c
            == gray_code_cost(dl, counts)
}

/// The Gray code of the states: each with the rotation qubit's own bit flipped.
pub open spec fn gray_code_of(states: Seq<i64>, nc: i64) -> Seq<i64> {
    states.map_values(|x: i64| x ^ (vstd::arithmetic::power2::pow2(nc as nat) as i64))
}

/// `a` and `b` agree on every field but the Gray code and its queues.
pub open spec fn same_but_gray(a: &RoutedMultiplexer, b: &RoutedMultiplexer) -> bool {
    &&& a.num_angles == b.num_angles
    &&& a.num_qubits == b.num_qubits
    &&& a.num_control == b.num_control
    &&& a.neighbors@ == b.neighbors@
    &&& a.root == b.root
    &&& a.furthest_node == b.furthest_node
    &&& a.arch_to_grey_map@ == b.arch_to_grey_map@
    &&& a.grey_to_arch_map@ == b.grey_to_arch_map@
    &&& a.optimal_neighborhood@ == b.optimal_neighborhood@
    &&& a.pairwise_dists@ == b.pairwise_dists@
    &&& a.arch_qubits@ == b.arch_qubits@
    &&& a.gate_queue@ == b.gate_queue@
    &&& a.discovered_pp_terms@ == b.discovered_pp_terms@
    &&& a.state@ == b.state@
    &&& a.state_to_angle@ == b.state_to_angle@
}

/// A list of the root's distances is one entry shorter than the placement.
pub proof fn lemma_root_distance_list_len(m: &RoutedMultiplexer, dl: Seq<(i64, i64)>)
    requires
        lists_root_distances(m, dl),
        m.arch_to_grey_map@.dom().finite(),
        m.arch_to_grey_map@.contains_key(m.root),
    ensures
        dl.len() == m.arch_to_grey_map@.dom().len() - 1,
{
    let nodes = dl.map_values(|p: (i64, i64)| p.0);
    let rest = m.arch_to_grey_map@.dom().remove(m.root);
    assert(nodes.no_duplicates()) by {
        assert forall|a: int, b: int| 0 <= a < nodes.len() && 0 <= b < nodes.len() && a != b implies nodes[a] != nodes[b] by {
            if a < b {
                assert(dl[a].0 != dl[b].0);
            } else {
                assert(dl[b].0 != dl[a].0);
            }
        }
    }
    assert(nodes.to_set() =~= rest) by {
        assert forall|v: i64| nodes.to_set().contains(v) <==> rest.contains(v) by {
            if nodes.to_set().contains(v) {
                let k = choose|k: int| 0 <= k < nodes.len() && nodes[k] == v;
                assert(dl[k].0 == v);
            }
            if rest.contains(v) {
                let k = choose|k: int| 0 <= k < dl.len() && (#[trigger] dl[k]).0 == v;
                assert(nodes[k] == v);
            }
        }
    }
    nodes.unique_seq_to_set();
}

/// Sorting a list of the root's distances by distance keeps it one.
proof fn lemma_sorted_root_list(m: &RoutedMultiplexer, pre: Seq<(i64, i64)>, sorted: Seq<(i64, i64)>)
    requires
        lists_root_distances(m, pre),
        sorted.to_multiset() == pre.to_multiset(),
        sorted_by_distance(sorted),
    ensures
        is_root_distance_list(m, sorted),
{
    assert forall|x: (i64, i64)| sorted.contains(x) <==> pre.contains(x) by {
        pre.to_multiset_ensures();
        sorted.to_multiset_ensures();
        assert(sorted.to_multiset().count(x) == pre.to_multiset().count(x));
        assert(sorted.contains(x) <==> sorted.to_multiset().count(x) > 0);
        assert(pre.contains(x) <==> pre.to_multiset().count(x) > 0);
    }
    assert(pre.no_duplicates()) by {
        assert forall|a: int, b: int| 0 <= a < pre.len() && 0 <= b < pre.len() && a != b implies pre[a] != pre[b] by {
            if a < b {
                assert(pre[a].0 != pre[b].0);
            } else {
                assert(pre[b].0 != pre[a].0);
            }
        }
    }
    pre.lemma_multiset_has_no_duplicates();
    sorted.lemma_multiset_has_no_duplicates_conv();
    assert forall|k: int| 0 <= k < sorted.len() implies {
        &&& m.arch_to_grey_map@.contains_key((#[trigger] sorted[k]).0)
        &&& sorted[k].0 != m.root
        &&& sorted[k].1 == m.pairwise_dists@[m.root]@[sorted[k].0]
    } by {
        assert(sorted.contains(sorted[k]));
        let i = choose|i: int| 0 <= i < pre.len() && pre[i] == sorted[k];
        assert(pre[i] == sorted[k]);
    }
    assert forall|v: i64| m.arch_to_grey_map@.contains_key(v) && v != m.root implies exists|k: int|
        0 <= k < sorted.len() && (#[trigger] sorted[k]).0 == v by {
        let i = choose|i: int| 0 <= i < pre.len() && (#[trigger] pre[i]).0 == v;
        assert(pre.contains(pre[i]));
        let k = choose|k: int| 0 <= k < sorted.len() && sorted[k] == pre[i];
        assert(sorted[k].0 == v);
    }
    assert forall|a: int, b: int| 0 <= a < b < sorted.len() implies (#[trigger] sorted[a]).0 != (#[trigger] sorted[b]).0 by {
        assert(sorted.contains(sorted[a]));
        assert(sorted.contains(sorted[b]));
        let i = choose|i: int| 0 <= i < pre.len() && pre[i] == sorted[a];
        let j = choose|j: int| 0 <= j < pre.len() && pre[j] == sorted[b];
        if sorted[a].0 == sorted[b].0 {
            if i < j {
                assert(pre[i].0 != pre[j].0);
            } else if j < i {
                assert(pre[j].0 != pre[i].0);
            }
            assert(sorted[a] == sorted[b]);
        }
    }
}

/// `slice::sort_by_key` on the distance of each pair.
///
/// Trusted: afterwards the vector holds the same pairs, in nondecreasing
/// distance. That the sort is stable, as its documentation says, is left
/// unsaid.
#[verifier::external_body]
fn sort_by_distance(v: &mut Vec<(i64, i64)>)
    ensures
        final(v)@.to_multiset() == old(v)@.to_multiset(),
        sorted_by_distance(final(v)@),
{
    v.sort_by_key(|x| x.1);
}

/// `2^e` is a positive `i64` for `e <= 62`.
pub(crate) proof fn lemma_pow2_fits(e: nat)
    requires
        e <= 62,
    ensures
        1 <= vstd::arithmetic::power2::pow2(e) <= 0x4000_0000_0000_0000,
        vstd::arithmetic::power2::pow2(e) as i64 == vstd::arithmetic::power2::pow2(e),
{
    vstd::arithmetic::power2::lemma_pow2_pos(e);
    vstd::arithmetic::power2::lemma2_to64_rest();
    if e < 62 {
        vstd::arithmetic::power2::lemma_pow2_strictly_increases(e, 62);
    }
}

/// The exponent of the count of the `jj`-th control from the top after `i`
/// rounds of doubling.
spec fn doubled_exp(i: int, jj: int) -> int {
    1 + if i - 1 - jj > 0 {
        i - 1 - jj
    } else {
        0
    }
}

/// The counts after `i` rounds: the control `jj <= i` from the top, under key
/// `nc - 1 - jj`.
spec fn counts_after(nc: i64, i: int) -> Map<i64, i64> {
    Map::new(
        |key: i64| nc - 1 - i <= key <= nc - 1,
        |key: i64| vstd::arithmetic::power2::pow2(doubled_exp(i, nc - 1 - key) as nat) as i64,
    )
}

/// Round `i` half done: the control `i + 1` added, the controls above `j` doubled.
spec fn counts_during(nc: i64, i: int, j: int) -> Map<i64, i64> {
    Map::new(
        |key: i64| nc - 2 - i <= key <= nc - 1,
        |key: i64|
            vstd::arithmetic::power2::pow2(
                (doubled_exp(i, nc - 1 - key) + if nc - 1 - key < j {
                    1int
                } else {
                    0int
                }) as nat,
            ) as i64,
    )
}

/// The CNOT count of each control, in the order in which a map keyed by
/// `nc - 1 - j` for the `j`-th control from the top hands them out: a map that
/// starts with 2 for the top control, and in round `i` adds 2 for the control
/// `i + 1` and doubles those above `i`.
fn cnot_counts_in_map_order(nq: i64, nc: i64) -> (r: Vec<i64>)
    requires
        2 <= nq <= 63,
        -1 <= nc <= 62,
    ensures
        is_reordering(r@, cnot_counts(nq)),
{
    let mut cnots: HashMap<i64, i64> = HashMap::new();
    cnots.insert(nc - 1, 2);
    proof {
        vstd::arithmetic::power2::lemma2_to64();
        assert(cnots@ =~= counts_after(nc, 0));
    }
    let mut i: i64 = 0;
    while i < nq - 2
        invariant
            2 <= nq <= 63,
            -1 <= nc <= 62,
            0 <= i <= nq - 2,
            cnots@ == counts_after(nc, i as int),
        decreases nq - 2 - i,
    {
        cnots.insert(nc - 2 - i, 2);
        proof {
            vstd::arithmetic::power2::lemma2_to64();
            assert(cnots@ =~= counts_during(nc, i as int, 0));
        }
        let mut j: i64 = 0;
        while j < i
            invariant
                2 <= nq <= 63,
                -1 <= nc <= 62,
                0 <= i < nq - 2,
                0 <= j <= i,
                cnots@ == counts_during(nc, i as int, j as int),
            decreases i - j,
        {
            let key = nc - 1 - j;
            if let Some(x) = cnots.get(&key) {
                let v = *x;
                proof {
                    let e = doubled_exp(i as int, j as int);
                    assert(e == i - j);
                    lemma_pow2_fits(e as nat);
                    lemma_pow2_fits((e + 1) as nat);
                    vstd::arithmetic::power2::lemma_pow2_unfold((e + 1) as nat);
                    assert(v == vstd::arithmetic::power2::pow2(e as nat));
                }
                cnots.insert(key, v * 2);
            }
            proof {
                assert(cnots@ =~= counts_during(nc, i as int, (j + 1) as int));
            }
            j = j + 1;
        }
        proof {
            assert(cnots@ =~= counts_after(nc, (i + 1) as int));
        }
        i = i + 1;
    }
    let keys = crate::graph::map_keys(&cnots);
    let mut counts: Vec<i64> = Vec::new();
    let mut k: usize = 0;
    while k < keys.len()
        invariant
            0 <= k <= keys.len(),
            counts@.len() == k,
            keys@.to_set() == cnots@.dom(),
            forall|t: int| 0 <= t < k ==> #[trigger] counts@[t] == cnots@[keys@[t]],
        decreases keys.len() - k,
    {
        let key = keys[k];
        assert(keys@.to_set().contains(key));
        let v = match cnots.get(&key) {
            Some(x) => *x,
            None => 0,
        };
        counts.push(v);
        k = k + 1;
    }
    proof {
        let top = nq - 2;
        assert(cnots@ == counts_after(nc, top as int));
        let n = (nq - 1) as int;
        let all = Seq::new(n as nat, |jj: int| (nc - 1 - jj) as i64);
        assert(all.no_duplicates());
        assert(all.to_set() =~= cnots@.dom()) by {
            assert forall|key: i64| all.to_set().contains(key) <==> cnots@.dom().contains(key) by {
                if cnots@.dom().contains(key) {
                    assert(all[nc - 1 - key] == key);
                }
            }
        }
        all.unique_seq_to_set();
        keys@.unique_seq_to_set();
        let p = Seq::new(keys@.len(), |t: int| nc - 1 - keys@[t]);
        assert forall|t: int| 0 <= t < p.len() implies 0 <= #[trigger] p[t] < cnot_counts(nq).len() && counts@[t]
            == cnot_counts(nq)[p[t]] by {
            assert(keys@.to_set().contains(keys@[t]));
            let jj = nc - 1 - keys@[t];
            assert(doubled_exp(top as int, jj) == if nq - 2 - jj > 1 { nq - 2 - jj } else { 1 });
        }
        assert forall|a: int, b: int| 0 <= a < b < p.len() implies #[trigger] p[a] != #[trigger] p[b] by {
            assert(keys@[a] != keys@[b]);
        }
        assert(reorders_by(counts@, cnot_counts(nq), p));
    }
    counts
}

impl RoutedMultiplexer {
    /// Each placed node other than the root with its distance from the root,
    /// nearest first.
    fn root_distance_list(&self) -> (r: Vec<(i64, i64)>)
        requires
            self.arch_to_grey_map@.contains_key(self.root),
            self.pairwise_dists@.contains_key(self.root),
            forall|v: i64| #[trigger] self.arch_to_grey_map@.contains_key(v) && v != self.root
                ==> self.pairwise_dists@[self.root]@.contains_key(v),
        ensures
            is_root_distance_list(self, r@),
    {
        let keys = crate::graph::map_keys(&self.arch_to_grey_map);
        let from_root = match self.pairwise_dists.get(&self.root) {
            Some(d) => d,
            None => { return Vec::new(); },
        };
        let mut pre: Vec<(i64, i64)> = Vec::new();
        let mut i: usize = 0;
        while i < keys.len()
            invariant
                0 <= i <= keys.len(),
                keys@.to_set() == self.arch_to_grey_map@.dom(),
                keys@.no_duplicates(),
                from_root@ == self.pairwise_dists@[self.root]@,
                forall|v: i64| #[trigger] self.arch_to_grey_map@.contains_key(v) && v != self.root
                    ==> from_root@.contains_key(v),
                forall|k: int| 0 <= k < pre@.len() ==> {
                    &&& self.arch_to_grey_map@.contains_key((#[trigger] pre@[k]).0)
                    &&& pre@[k].0 != self.root
                    &&& pre@[k].1 == from_root@[pre@[k].0]
                    &&& exists|t: int| 0 <= t < i && keys@[t] == pre@[k].0
                },
                forall|t: int| 0 <= t < i && keys@[t] != self.root ==> exists|k: int|
                    0 <= k < pre@.len() && (#[trigger] pre@[k]).0 == keys@[t],
                forall|a: int, b: int| 0 <= a < b < pre@.len() ==> (#[trigger] pre@[a]).0 != (#[trigger] pre@[b]).0,
            decreases keys.len() - i,
        {
            let node = keys[i];
            assert(keys@.to_set().contains(node));
            if node != self.root {
                let d = match from_root.get(&node) {
                    Some(x) => *x,
                    None => 0,
                };
                let ghost before = pre@;
                pre.push((node, d));
                proof {
                    assert(pre@[before.len() as int] == (node, d));
                    assert forall|k: int| 0 <= k < before.len() implies pre@[k] == before[k] by {}
                    assert forall|a: int, b: int| 0 <= a < b < pre@.len() implies (#[trigger] pre@[a]).0 != (#[trigger] pre@[b]).0 by {
                        if b == before.len() {
                            let t = choose|t: int| 0 <= t < i && keys@[t] == before[a].0;
                            assert(keys@[t] != keys@[i as int]);
                        } else {
                            assert(before[a].0 != before[b].0);
                        }
                    }
                    assert forall|t: int| 0 <= t < i + 1 && keys@[t] != self.root implies exists|k: int|
                        0 <= k < pre@.len() && (#[trigger] pre@[k]).0 == keys@[t] by {
                        if t == i {
                            assert(pre@[before.len() as int].0 == keys@[t]);
                        } else {
                            let k = choose|k: int| 0 <= k < before.len() && (#[trigger] before[k]).0 == keys@[t];
                            assert(pre@[k].0 == keys@[t]);
                        }
                    }
                    assert forall|k: int| 0 <= k < pre@.len() implies exists|t: int| 0 <= t < i + 1 && keys@[t] == (#[trigger] pre@[k]).0 by {
                        if k == before.len() {
                            assert(keys@[i as int] == pre@[k].0);
                        } else {
                            let t = choose|t: int| 0 <= t < i && keys@[t] == before[k].0;
                            assert(keys@[t] == pre@[k].0);
                        }
                    }
                }
            }
            i = i + 1;
        }
        proof {
            assert forall|v: i64| self.arch_to_grey_map@.contains_key(v) && v != self.root implies exists|k: int|
                0 <= k < pre@.len() && (#[trigger] pre@[k]).0 == v by {
                assert(keys@.to_set().contains(v));
                let t = choose|t: int| 0 <= t < keys@.len() && keys@[t] == v;
                assert(keys@[t] != self.root);
            }
            assert(lists_root_distances(self, pre@));
        }
        let ghost unsorted = pre@;
        sort_by_distance(&mut pre);
        proof {
            lemma_sorted_root_list(self, unsorted, pre@);
        }
        pre
    }
}

/// With nonnegative counts, the running cost only grows.
proof fn lemma_weighted_cost_grows(dl: Seq<(i64, i64)>, counts: Seq<i64>, a: int, b: int)
    requires
        0 <= a <= b <= zip_len(dl, counts),
        forall|k: int| 0 <= k < b ==> #[trigger] counts[k] >= 0,
    ensures
        0 <= weighted_cost(dl, counts, a) <= weighted_cost(dl, counts, b),
    decreases b,
{
    if b > 0 {
        if a < b {
            lemma_weighted_cost_grows(dl, counts, a, b - 1);
        } else {
            lemma_weighted_cost_grows(dl, counts, 0, b - 1);
        }
        let c = counts[b - 1] as int;
        let r = relay_cost(dl[b - 1].1);
        assert(c * r >= 0) by (nonlinear_arith)
            requires
                c >= 0,
                r >= 1,
        ;
    }
}

/// Each control's CNOT count is a positive `i64`.
proof fn lemma_cnot_counts_positive(nq: i64)
    requires
        2 <= nq <= 63,
    ensures
        forall|j: int| 0 <= j < cnot_counts(nq).len() ==> #[trigger] cnot_counts(nq)[j] >= 1,
{
    assert forall|j: int| 0 <= j < cnot_counts(nq).len() implies #[trigger] cnot_counts(nq)[j] >= 1 by {
        let e = if nq - 2 - j > 1 { nq - 2 - j } else { 1 };
        lemma_pow2_fits(e as nat);
    }
}

/// `o` is `m` with its Gray-code sweep built once more at cost `cost`: for
/// some list `dl` of the root's distances and some order `counts` of the
/// controls' CNOT counts, the cost is `gray_code_cost(dl, counts)`, the sweep's
/// CNOTs and states are appended to the queues, and the Gray code is every
/// queued state with the rotation qubit's bit flipped; the rest is kept.
pub open spec fn coded_from(m: &RoutedMultiplexer, o: &RoutedMultiplexer, cost: int) -> bool {
    let codes = vstd::arithmetic::power2::pow2(m.num_control as nat) as int;
    &&& exists|dl: Seq<(i64, i64)>, counts: Seq<i64>|
        #![trigger gray_code_cost(dl, counts)]
        {
            &&& is_root_distance_list(m, dl)
            &&& is_reordering(counts, cnot_counts(m.num_qubits))
            &&& cost == gray_code_cost(dl, counts)
            &&& o.gray_gate_queue@ == m.gray_gate_queue@ + gray_build(m, dl, codes).0
            &&& o.gray_state_queue@ == m.gray_state_queue@ + gray_build(m, dl, codes).1
        }
    &&& o.gray_code@ == gray_code_of(o.gray_state_queue@, m.num_control)
    &&& same_but_gray(o, m)
}

impl RoutedMultiplexer {
    /// Builds the Gray-code sweep and returns its CNOT cost. The placed nodes
    /// other than the root are listed nearest to the root first; code `i`, for
    /// `i` from 1 to `2^nc`, relays the control at position
    /// `highest_flip(i, nc) - 1` of that list to the root, queueing the CNOT
    /// and the rotation qubit's parity before it (see `gray_build`); the Gray
    /// code is every queued state with the rotation qubit's bit flipped. The
    /// cost pairs the listed distances with the controls' CNOT counts in the
    /// order a hash map hands them out.
    pub fn get_optimal_gray_code(&mut self) -> (cost: i64)
        requires
            gray_code_defined(old(self)),
        ensures
            coded_from(old(self), final(self), cost as int),
    {
        let ghost m0 = *self;
        let nc = self.num_control;
        let nq = self.num_qubits;
        proof {
            assert(distance_table(&self.pairwise_dists)[self.root] == self.pairwise_dists@[self.root]@);
        }
        let dl = self.root_distance_list();
        let ghost dls = dl@;
        proof {
            lemma_root_distance_list_len(&m0, dls);
        }
        let root_q = match self.arch_to_grey_map.get(&self.root) {
            Some(q) => *q,
            None => 0,
        };
        let n_codes = power_of_two(nc);
        proof {
            lemma_pow2_fits(nc as nat);
        }
        let mut grey_state = starting_parities(nq);
        let mut i: i64 = 1;
        while i <= n_codes
            invariant
                1 <= i <= n_codes + 1,
                n_codes == vstd::arithmetic::power2::pow2(nc as nat),
                n_codes <= 0x4000_0000_0000_0000,
                nc == m0.num_control,
                nq == m0.num_qubits,
                gray_code_defined(&m0),
                distance_table(&m0.pairwise_dists)[m0.root] == m0.pairwise_dists@[m0.root]@,
                same_but_gray(self, &m0),
                dl@ == dls,
                is_root_distance_list(&m0, dls),
                dls.len() >= nc,
                root_q == m0.arch_to_grey_map@[m0.root],
                forall|x: i64| grey_state@.contains_key(x) <==> 0 <= x < nq,
                self.gray_gate_queue@ == m0.gray_gate_queue@ + gray_build(&m0, dls, i - 1).0,
                self.gray_state_queue@ == m0.gray_state_queue@ + gray_build(&m0, dls, i - 1).1,
                grey_state@ == gray_build(&m0, dls, i - 1).2,
            decreases n_codes + 1 - i,
        {
            let h = highest_changed_bit(i, nc);
            proof {
                lemma_highest_flip_range(i, nc);
            }
            let node = dl[(h - 1) as usize].0;
            let q = match self.arch_to_grey_map.get(&node) {
                Some(x) => *x,
                None => 0,
            };
            proof {
                assert(dls[h - 1].0 == node);
                assert(m0.pairwise_dists@[m0.root]@.contains_key(node));
                assert(q < nq);
            }
            let ghost prev = gray_build(&m0, dls, i - 1);
            self.gray_gate_queue.push_back(RoutingGate { name: GateName::CX, ctrl: q, targ: root_q, angle: 0 });
            let current = match grey_state.get(&nc) {
                Some(x) => *x,
                None => 0,
            };
            self.gray_state_queue.push_back(current);
            let applied = match grey_state.get(&(q as i64)) {
                Some(x) => *x,
                None => 0,
            };
            grey_state.insert(nc, applied ^ current);
            proof {
                let next = gray_build(&m0, dls, i as int);
                assert(next.0 == prev.0.push(cnot_gate(q, root_q)));
                assert(self.gray_gate_queue@ =~= m0.gray_gate_queue@ + next.0);
                assert(self.gray_state_queue@ =~= m0.gray_state_queue@ + next.1);
                assert(grey_state@ =~= next.2);
            }
            i = i + 1;
        }
        let mut code: Vec<i64> = Vec::new();
        let mut t: usize = 0;
        while t < self.gray_state_queue.len()
            invariant
                0 <= t <= self.gray_state_queue@.len(),
                n_codes == vstd::arithmetic::power2::pow2(nc as nat),
                code@ == gray_code_of(self.gray_state_queue@, nc).take(t as int),
            decreases self.gray_state_queue@.len() - t,
        {
            code.push(self.gray_state_queue[t] ^ n_codes);
            proof {
                assert(code@ =~= gray_code_of(self.gray_state_queue@, nc).take(t + 1));
            }
            t = t + 1;
        }
        proof {
            assert(code@ =~= gray_code_of(self.gray_state_queue@, nc));
        }
        self.gray_code = code;
        let counts = cnot_counts_in_map_order(nq, nc);
        proof {
            assert(is_root_distance_list(&m0, dl@));
            assert(cost_fits(dl@, counts@));
            let p = choose|p: Seq<int>| reorders_by(counts@, cnot_counts(nq), p);
            lemma_cnot_counts_positive(nq);
            assert forall|k: int| 0 <= k < counts@.len() implies #[trigger] counts@[k] >= 0 by {
                assert(counts@[k] == cnot_counts(nq)[p[k]]);
            }
        }
        let zn = if dl.len() < counts.len() {
            dl.len()
        } else {
            counts.len()
        };
        let ghost m1 = *self;
        let mut total: i64 = 0;
        let mut k: usize = 0;
        while k < zn
            invariant
                0 <= k <= zn,
                zn == zip_len(dl@, counts@),
                cost_fits(dl@, counts@),
                forall|j: int| 0 <= j < counts@.len() ==> #[trigger] counts@[j] >= 0,
                total == weighted_cost(dl@, counts@, k as int),
                *self == m1,
            decreases zn - k,
        {
            proof {
                lemma_weighted_cost_grows(dl@, counts@, k as int, k + 1);
                lemma_weighted_cost_grows(dl@, counts@, k + 1, zn as int);
            }
            let c = self.long_range_cnot_cost(dl[k].1);
            total = total + counts[k] * c;
            k = k + 1;
        }
        proof {
            assert(gray_code_cost(dl@, counts@) == total);
            assert(is_reordering(counts@, cnot_counts(nq)));
            assert(is_root_distance_list(&m0, dl@));
            assert(gray_code_cost(dl@, counts@) == total);
        }
        total
    }
}

/// `1 << e` is `2^e`.
pub(crate) proof fn lemma_shl_pow2(e: u64)
    requires
        e <= 62,
    ensures
        (1i64 << e) == vstd::arithmetic::power2::pow2(e as nat) as i64,
{
    vstd::arithmetic::power2::lemma_pow2_pos(e as nat);
    lemma_pow2_fits(e as nat);
    vstd::bits::lemma_u64_shl_is_mul(1u64, e);
    assert(((1i64 << e) as u64) == (1u64 << e) && (1i64 << e) >= 0) by (bit_vector)
        requires
            e <= 62,
    ;
}

/// The bits of `i` below bit `b` are all clear.
pub open spec fn low_clear(i: i64, b: u64) -> bool {
    i & (((1i64 << b) - 1) as i64) == 0
}

/// Codes `i` and `i - 1` differ in bit `b` exactly when the bits of `i` below
/// `b` are all clear.
proof fn lemma_differs_iff_low_clear(i: i64, b: u64)
    requires
        1 <= i < 0x4000_0000_0000_0000,
        b < 62,
    ensures
        (((i >> b) & 1) != (((i - 1) as i64 >> b) & 1)) == low_clear(i, b),
{
    assert((((i >> b) & 1) != (((i - 1) as i64 >> b) & 1)) == (i & (((1i64 << b) - 1) as i64) == 0)) by (bit_vector)
        requires
            1 <= i < 0x4000_0000_0000_0000,
            b < 62,
    ;
}

/// The bit that code `i` flips is the highest `f` below `j` whose lower bits
/// in `i` are all clear.
pub(crate) proof fn lemma_flip_low_clear(i: i64, j: i64)
    requires
        1 <= i < 0x4000_0000_0000_0000,
        1 <= j <= 62,
    ensures
        0 <= highest_flip(i, j) - 1 < j,
        low_clear(i, (highest_flip(i, j) - 1) as u64),
        highest_flip(i, j) < j ==> !low_clear(i, highest_flip(i, j) as u64),
    decreases j,
{
    lemma_differs_iff_low_clear(i, (j - 1) as u64);
    if ((i >> ((j - 1) as u64)) & 1) != (((i - 1) as i64 >> ((j - 1) as u64)) & 1) {
    } else {
        if j == 1 {
            lemma_differs_iff_low_clear(i, 0);
            assert(i & (((1i64 << 0u64) - 1) as i64) == 0) by (bit_vector);
        } else {
            lemma_flip_low_clear(i, (j - 1) as i64);
        }
    }
}

/// The mask of bits flipped by the first `k` codes of a sweep over `nc`
/// controls.
pub open spec fn gray_mask(nc: i64, k: int) -> i64
    decreases k,
{
    if k <= 0 {
        0
    } else {
        gray_mask(nc, k - 1) ^ (1i64 << ((highest_flip(k as i64, nc) - 1) as u64))
    }
}

/// Before the last code, the flipped mask is the reflected Gray code
/// `k ^ (k >> 1)`; the last code clears it again.
proof fn lemma_gray_mask(nc: i64, k: int)
    requires
        1 <= nc <= 61,
        0 <= k <= vstd::arithmetic::power2::pow2(nc as nat),
    ensures
        k < vstd::arithmetic::power2::pow2(nc as nat) ==> gray_mask(nc, k) == (k as i64) ^ ((k as i64) >> 1u64),
        k == vstd::arithmetic::power2::pow2(nc as nat) ==> gray_mask(nc, k) == 0,
        0 <= gray_mask(nc, k) < vstd::arithmetic::power2::pow2(nc as nat),
    decreases k,
{
    let n = nc as u64;
    let top = vstd::arithmetic::power2::pow2(nc as nat) as i64;
    lemma_pow2_fits(nc as nat);
    lemma_shl_pow2(n);
    vstd::arithmetic::power2::lemma2_to64_rest();
    if nc < 61 {
        vstd::arithmetic::power2::lemma_pow2_strictly_increases(nc as nat, 61);
    }
    assert((0i64 ^ (0i64 >> 1u64)) == 0) by (bit_vector);
    if k > 0 {
        lemma_gray_mask(nc, k - 1);
        let i = k as i64;
        lemma_flip_low_clear(i, nc);
        let f = (highest_flip(i, nc) - 1) as u64;
        if k < top {
            assert((i >> f) & 1 == 1) by (bit_vector)
                requires
                    1 <= i < (1i64 << n),
                    1 <= n <= 61,
                    f < n,
                    i & (((1i64 << f) - 1) as i64) == 0,
                    f + 1 < n ==> i & (((1i64 << ((f + 1) as u64)) - 1) as i64) != 0,
            ;
            assert((i ^ (i >> 1u64)) == ((((i - 1) as i64) ^ (((i - 1) as i64) >> 1u64)) ^ (1i64 << f))) by (bit_vector)
                requires
                    1 <= i < 0x4000_0000_0000_0000,
                    f < 62,
                    (i >> f) & 1 == 1,
                    i & (((1i64 << f) - 1) as i64) == 0,
            ;
            assert(0 <= (i ^ (i >> 1u64)) < (1i64 << n)) by (bit_vector)
                requires
                    1 <= i < (1i64 << n),
                    1 <= n <= 61,
            ;
        } else {
            assert(f == n - 1) by {
                if f + 1 < n {
                    assert(i & (((1i64 << ((f + 1) as u64)) - 1) as i64) == 0) by (bit_vector)
                        requires
                            i == (1i64 << n),
                            1 <= n <= 61,
                            f + 1 < n,
                    ;
                }
            }
            assert(((((i - 1) as i64) ^ (((i - 1) as i64) >> 1u64)) ^ (1i64 << f)) == 0) by (bit_vector)
                requires
                    i == (1i64 << n),
                    1 <= n <= 61,
                    f == n - 1,
            ;
        }
    }
}

/// Bit `x` of `v` is set.
pub open spec fn bit_at(v: i64, x: u64) -> bool {
    (v >> x) & 1 == 1
}

/// XOR is associative, commutative and self-cancelling.
proof fn lemma_xor(x: i64, y: i64, z: i64)
    ensures
        (x ^ y) ^ y == x,
        (x ^ y) ^ z == (x ^ z) ^ y,
        x ^ (y ^ z) == (x ^ y) ^ z,
        x ^ y == y ^ x,
        x ^ 0 == x,
{
    assert((x ^ y) ^ y == x && (x ^ y) ^ z == (x ^ z) ^ y && x ^ (y ^ z) == (x ^ y) ^ z && x ^ y == y ^ x && x ^ 0
        == x) by (bit_vector);
}

/// The bits of an XOR, and of a power of two.
proof fn lemma_bits(v: i64, w: i64, q: u64, x: u64)
    requires
        q < 63,
        x < 63,
    ensures
        bit_at(v ^ w, x) == (bit_at(v, x) != bit_at(w, x)),
        bit_at(1i64 << q, x) == (x == q),
        bit_at(v ^ (1i64 << q), x) == (bit_at(v, x) != (x == q)),
        !bit_at(0, x),
{
    assert(((((v ^ w) >> x) & 1 == 1) == (((v >> x) & 1 == 1) != ((w >> x) & 1 == 1))) && ((((1i64 << q) >> x) & 1
        == 1) == (x == q)) && ((((v ^ (1i64 << q)) >> x) & 1 == 1) == (((v >> x) & 1 == 1) != (x == q))) && !(((0i64
        >> x) & 1) == 1)) by (bit_vector)
        requires
            q < 63,
            x < 63,
    ;
}

/// The qubit that bit `b` of the sweep's mask stands for: the control at
/// position `b` of `dl`.
pub open spec fn mask_qubit(a2g: Map<i64, usize>, dl: Seq<(i64, i64)>, b: int) -> usize {
    a2g[dl[b].0]
}

/// The parity that the bits of `m` below `n` stand for: the XOR of `2^q` over
/// the qubits `q` of its set bits.
pub open spec fn spread(a2g: Map<i64, usize>, dl: Seq<(i64, i64)>, m: i64, n: int) -> i64
    decreases n,
{
    if n <= 0 {
        0
    } else {
        let rest = spread(a2g, dl, m, n - 1);
        if bit_at(m, (n - 1) as u64) {
            rest ^ (vstd::arithmetic::power2::pow2(mask_qubit(a2g, dl, n - 1) as nat) as i64)
        } else {
            rest
        }
    }
}

/// The first `n` mask bits stand for distinct qubits below 63.
pub open spec fn distinct_mask_qubits(a2g: Map<i64, usize>, dl: Seq<(i64, i64)>, n: int) -> bool {
    &&& forall|b: int| 0 <= b < n ==> #[trigger] mask_qubit(a2g, dl, b) < 63
    &&& forall|b: int, c: int| 0 <= b < c < n ==> #[trigger] mask_qubit(a2g, dl, b) != #[trigger] mask_qubit(a2g, dl, c)
}

/// Flipping mask bit `b` flips the parity of its qubit, when `b` is below `n`.
proof fn lemma_spread_flip(a2g: Map<i64, usize>, dl: Seq<(i64, i64)>, m: i64, b: u64, n: int)
    requires
        b < 62,
        0 <= n <= 62,
        distinct_mask_qubits(a2g, dl, n),
    ensures
        spread(a2g, dl, m ^ (1i64 << b), n) == if b < n {
            spread(a2g, dl, m, n) ^ (vstd::arithmetic::power2::pow2(mask_qubit(a2g, dl, b as int) as nat) as i64)
        } else {
            spread(a2g, dl, m, n)
        },
    decreases n,
{
    if n > 0 {
        let c = n - 1;
        lemma_spread_flip(a2g, dl, m, b, c);
        let m2 = m ^ (1i64 << b);
        lemma_bits(m, 0, b, c as u64);
        let rest = spread(a2g, dl, m, c);
        let rest2 = spread(a2g, dl, m2, c);
        let pc = vstd::arithmetic::power2::pow2(mask_qubit(a2g, dl, c) as nat) as i64;
        if b < n {
            let pb = vstd::arithmetic::power2::pow2(mask_qubit(a2g, dl, b as int) as nat) as i64;
            lemma_xor(rest, pb, pc);
            lemma_xor(rest, pc, pb);
            lemma_xor(rest ^ pc, pb, 0);
        }
    }
}

/// Bit `x` of the parity is set exactly when some set mask bit below `n`
/// stands for qubit `x`.
proof fn lemma_spread_bit(a2g: Map<i64, usize>, dl: Seq<(i64, i64)>, m: i64, n: int, x: u64)
    requires
        0 <= n <= 62,
        x < 63,
        distinct_mask_qubits(a2g, dl, n),
    ensures
        bit_at(spread(a2g, dl, m, n), x) == exists|b: int|
            0 <= b < n && mask_qubit(a2g, dl, b) == x && #[trigger] bit_at(m, b as u64),
    decreases n,
{
    if n == 0 {
        lemma_bits(0, 0, 0, x);
    } else {
        let c = n - 1;
        lemma_spread_bit(a2g, dl, m, c, x);
        let q = mask_qubit(a2g, dl, c);
        let rest = spread(a2g, dl, m, c);
        lemma_shl_pow2(q as u64);
        lemma_bits(rest, vstd::arithmetic::power2::pow2(q as nat) as i64, q as u64, x);
        if bit_at(m, c as u64) && q == x {
            assert(bit_at(m, c as u64) && mask_qubit(a2g, dl, c) == x);
            if exists|b: int| 0 <= b < c && mask_qubit(a2g, dl, b) == x && #[trigger] bit_at(m, b as u64) {
                let b = choose|b: int| 0 <= b < c && mask_qubit(a2g, dl, b) == x && #[trigger] bit_at(m, b as u64);
                assert(mask_qubit(a2g, dl, b) != mask_qubit(a2g, dl, c));
            }
        } else {
            assert((exists|b: int| 0 <= b < n && mask_qubit(a2g, dl, b) == x && #[trigger] bit_at(m, b as u64)) == (exists|b: int|
                0 <= b < c && mask_qubit(a2g, dl, b) == x && #[trigger] bit_at(m, b as u64)));
        }
    }
}

/// Masks with the same bits below `n` and nothing above are equal.
proof fn lemma_masks_equal(m1: i64, m2: i64, n: u64)
    requires
        n <= 62,
        0 <= m1 < (1i64 << n),
        0 <= m2 < (1i64 << n),
        forall|b: u64| b < n ==> #[trigger] bit_at(m1, b) == bit_at(m2, b),
    ensures
        m1 == m2,
    decreases n,
{
    if n == 0 {
        assert(m1 == 0 && m2 == 0) by (bit_vector)
            requires
                0 <= m1 < (1i64 << 0u64),
                0 <= m2 < (1i64 << 0u64),
        ;
    } else {
        let k = (n - 1) as u64;
        assert(bit_at(m1, k) == bit_at(m2, k));
        let low1 = m1 & (((1i64 << k) - 1) as i64);
        let low2 = m2 & (((1i64 << k) - 1) as i64);
        assert(0 <= low1 < (1i64 << k) && 0 <= low2 < (1i64 << k)) by (bit_vector)
            requires
                k < 62,
                0 <= m1,
                0 <= m2,
                low1 == m1 & (((1i64 << k) - 1) as i64),
                low2 == m2 & (((1i64 << k) - 1) as i64),
        ;
        assert forall|b: u64| b < k implies #[trigger] bit_at(low1, b) == bit_at(low2, b) by {
            assert(bit_at(m1, b) == bit_at(m2, b));
            assert(bit_at(low1, b) == bit_at(m1, b) && bit_at(low2, b) == bit_at(m2, b)) by (bit_vector)
                requires
                    b < k,
                    k < 62,
                    low1 == m1 & (((1i64 << k) - 1) as i64),
                    low2 == m2 & (((1i64 << k) - 1) as i64),
            ;
        }
        lemma_masks_equal(low1, low2, k);
        assert(m1 == m2) by (bit_vector)
            requires
                k < 62,
                0 <= m1 < (1i64 << ((k + 1) as u64)),
                0 <= m2 < (1i64 << ((k + 1) as u64)),
                ((m1 >> k) & 1 == 1) == ((m2 >> k) & 1 == 1),
                m1 & (((1i64 << k) - 1) as i64) == m2 & (((1i64 << k) - 1) as i64),
        ;
    }
}

/// The empty mask stands for no parity.
proof fn lemma_spread_zero(a2g: Map<i64, usize>, dl: Seq<(i64, i64)>, n: int)
    requires
        0 <= n <= 62,
    ensures
        spread(a2g, dl, 0, n) == 0,
    decreases n,
{
    if n > 0 {
        lemma_bits(0, 0, 0, (n - 1) as u64);
        lemma_spread_zero(a2g, dl, n - 1);
    }
}

/// When the first `n` mask bits stand for qubits below `nc`, so does the parity.
proof fn lemma_spread_range(a2g: Map<i64, usize>, dl: Seq<(i64, i64)>, m: i64, n: int, nc: u64)
    requires
        0 <= n <= 62,
        1 <= nc <= 61,
        forall|b: int| 0 <= b < n ==> #[trigger] mask_qubit(a2g, dl, b) < nc,
    ensures
        0 <= spread(a2g, dl, m, n) < (1i64 << nc),
    decreases n,
{
    assert(0 < (1i64 << nc)) by (bit_vector)
        requires
            1 <= nc <= 61,
    ;
    if n > 0 {
        lemma_spread_range(a2g, dl, m, n - 1, nc);
        let q = mask_qubit(a2g, dl, n - 1) as u64;
        lemma_shl_pow2(q);
        let rest = spread(a2g, dl, m, n - 1);
        assert(0 <= rest ^ (1i64 << q) < (1i64 << nc)) by (bit_vector)
            requires
                0 <= rest < (1i64 << nc),
                q < nc,
                nc <= 61,
        ;
    }
}

/// Entry `k` of the sweep's states is the rotation qubit's parity after `k` codes.
proof fn lemma_sweep_state_prefix(nq: i64, nc: i64, a2g: Map<i64, usize>, root: i64, dl: Seq<(i64, i64)>, kk: int, k: int)
    requires
        0 <= k < kk,
    ensures
        gray_build_at(nq, nc, a2g, root, dl, kk).1.len() == kk,
        gray_build_at(nq, nc, a2g, root, dl, kk).1[k] == gray_build_at(nq, nc, a2g, root, dl, k).2[nc],
    decreases kk,
{
    let cur = gray_build_at(nq, nc, a2g, root, dl, kk);
    let prev = gray_build_at(nq, nc, a2g, root, dl, kk - 1);
    assert(cur.1 == prev.1.push(prev.2[nc]));
    if k < kk - 1 {
        lemma_sweep_state_prefix(nq, nc, a2g, root, dl, kk - 1, k);
    } else if kk > 1 {
        lemma_sweep_state_prefix(nq, nc, a2g, root, dl, kk - 1, 0);
    }
}

/// After `k` codes the rotation qubit holds its own bit XOR the parity that
/// the flipped mask stands for.
proof fn lemma_sweep_parity(nq: i64, nc: i64, a2g: Map<i64, usize>, root: i64, dl: Seq<(i64, i64)>, k: int)
    requires
        1 <= nc <= 61,
        nc < nq <= 63,
        0 <= k <= vstd::arithmetic::power2::pow2(nc as nat),
        distinct_mask_qubits(a2g, dl, nc as int),
        forall|b: int| 0 <= b < nc ==> #[trigger] mask_qubit(a2g, dl, b) < nc,
    ensures
        gray_build_at(nq, nc, a2g, root, dl, k).2[nc] == (vstd::arithmetic::power2::pow2(nc as nat) as i64) ^ spread(
            a2g,
            dl,
            gray_mask(nc, k),
            nc as int,
        ),
    decreases k,
{
    lemma_pow2_fits(nc as nat);
    vstd::arithmetic::power2::lemma2_to64_rest();
    if nc < 61 {
        vstd::arithmetic::power2::lemma_pow2_strictly_increases(nc as nat, 61);
    }
    let top = vstd::arithmetic::power2::pow2(nc as nat) as i64;
    if k == 0 {
        lemma_spread_zero(a2g, dl, nc as int);
        lemma_xor(top, 0, 0);
    } else {
        lemma_sweep_parity(nq, nc, a2g, root, dl, k - 1);
        assert forall|i: int| 1 <= i <= k - 1 implies #[trigger] sweep_qubit(nc, a2g, dl, i) != nc as usize && sweep_qubit(
            nc,
            a2g,
            dl,
            i,
        ) < nq by {
            lemma_highest_flip_range(i as i64, nc);
            assert(mask_qubit(a2g, dl, highest_flip(i as i64, nc) - 1) < nc);
        }
        lemma_gray_states_step(nq, nc, a2g, root, dl, k - 1);
        let i = k as i64;
        lemma_flip_low_clear(i, nc);
        let f = highest_flip(i, nc) - 1;
        let q = mask_qubit(a2g, dl, f);
        assert(q < nc);
        let prev = gray_build_at(nq, nc, a2g, root, dl, k - 1);
        let p = vstd::arithmetic::power2::pow2(q as nat) as i64;
        assert(prev.2[q as i64] == p);
        let m_prev = gray_mask(nc, k - 1);
        lemma_spread_flip(a2g, dl, m_prev, f as u64, nc as int);
        let s_prev = spread(a2g, dl, m_prev, nc as int);
        lemma_xor(p, top, s_prev);
        lemma_xor(top, s_prev, p);
        lemma_xor(p ^ top, s_prev, 0);
        lemma_xor(top, p, s_prev);
    }
}

/// The Gray-code sweep over `nc` controls, whose first `nc` listed nodes hold
/// distinct qubits below `nc`, visits `2^nc` distinct parity terms, each from
/// `2^nc` up to `2^(nc + 1)`, starting at `2^nc`; and it brings the rotation
/// qubit back to its own parity `2^nc`.
pub proof fn lemma_gray_sweep_visits_each_term_once(nq: i64, nc: i64, a2g: Map<i64, usize>, root: i64, dl: Seq<(i64, i64)>)
    requires
        1 <= nc <= 61,
        nc < nq <= 63,
        distinct_mask_qubits(a2g, dl, nc as int),
        forall|b: int| 0 <= b < nc ==> #[trigger] mask_qubit(a2g, dl, b) < nc,
    ensures
        gray_build_at(nq, nc, a2g, root, dl, vstd::arithmetic::power2::pow2(nc as nat) as int).1.len()
            == vstd::arithmetic::power2::pow2(nc as nat),
        gray_build_at(nq, nc, a2g, root, dl, vstd::arithmetic::power2::pow2(nc as nat) as int).1[0]
            == vstd::arithmetic::power2::pow2(nc as nat),
        forall|k: int|
            0 <= k < vstd::arithmetic::power2::pow2(nc as nat) ==> vstd::arithmetic::power2::pow2(nc as nat)
                <= #[trigger] gray_build_at(nq, nc, a2g, root, dl, vstd::arithmetic::power2::pow2(nc as nat) as int).1[k]
                < 2 * vstd::arithmetic::power2::pow2(nc as nat),
        forall|k1: int, k2: int|
            0 <= k1 < k2 < vstd::arithmetic::power2::pow2(nc as nat) ==> #[trigger] gray_build_at(
                nq,
                nc,
                a2g,
                root,
                dl,
                vstd::arithmetic::power2::pow2(nc as nat) as int,
            ).1[k1] != #[trigger] gray_build_at(nq, nc, a2g, root, dl, vstd::arithmetic::power2::pow2(nc as nat) as int).1[k2],
        gray_build_at(nq, nc, a2g, root, dl, vstd::arithmetic::power2::pow2(nc as nat) as int).2[nc]
            == vstd::arithmetic::power2::pow2(nc as nat),
{
    let codes = vstd::arithmetic::power2::pow2(nc as nat) as int;
    let n = nc as u64;
    lemma_pow2_fits(nc as nat);
    lemma_shl_pow2(n);
    let top = vstd::arithmetic::power2::pow2(nc as nat) as i64;
    let st = gray_build_at(nq, nc, a2g, root, dl, codes).1;
    lemma_sweep_state_prefix(nq, nc, a2g, root, dl, codes, 0);
    lemma_sweep_parity(nq, nc, a2g, root, dl, codes);
    lemma_gray_mask(nc, codes);
    lemma_spread_zero(a2g, dl, nc as int);
    lemma_xor(top, 0, 0);
    // Each state is the rotation qubit's bit together with the parity of its mask.
    assert forall|k: int| 0 <= k < codes implies top <= #[trigger] st[k] < 2 * top && st[k] == top ^ spread(
        a2g,
        dl,
        gray_mask(nc, k),
        nc as int,
    ) by {
        lemma_sweep_state_prefix(nq, nc, a2g, root, dl, codes, k);
        lemma_sweep_parity(nq, nc, a2g, root, dl, k);
        lemma_spread_range(a2g, dl, gray_mask(nc, k), nc as int, n);
        let s = spread(a2g, dl, gray_mask(nc, k), nc as int);
        assert(top <= (top ^ s) < 2 * top) by (bit_vector)
            requires
                top == (1i64 << n),
                1 <= n <= 61,
                0 <= s < (1i64 << n),
        ;
    }
    assert(st[0] == top) by {
        lemma_gray_mask(nc, 0);
    }
    assert forall|k1: int, k2: int| 0 <= k1 < k2 < codes implies #[trigger] st[k1] != #[trigger] st[k2] by {
        let m1 = gray_mask(nc, k1);
        let m2 = gray_mask(nc, k2);
        let s1 = spread(a2g, dl, m1, nc as int);
        let s2 = spread(a2g, dl, m2, nc as int);
        lemma_gray_mask(nc, k1);
        lemma_gray_mask(nc, k2);
        if st[k1] == st[k2] {
            assert(st[k1] == top ^ s1 && st[k2] == top ^ s2);
            lemma_xor(s1, top, 0);
            lemma_xor(s2, top, 0);
            lemma_xor(top, s1, top);
            lemma_xor(top, s2, top);
            assert(s1 == s2) by (bit_vector)
                requires
                    (top ^ s1) == (top ^ s2),
            ;
            assert forall|b: u64| b < n implies #[trigger] bit_at(m1, b) == bit_at(m2, b) by {
                let x = mask_qubit(a2g, dl, b as int) as u64;
                lemma_spread_bit(a2g, dl, m1, nc as int, x);
                lemma_spread_bit(a2g, dl, m2, nc as int, x);
                assert forall|m: i64| (exists|c: int| 0 <= c < nc && mask_qubit(a2g, dl, c) == x && #[trigger] bit_at(m, c as u64))
                    == bit_at(m, b) by {
                    if exists|c: int| 0 <= c < nc && mask_qubit(a2g, dl, c) == x && #[trigger] bit_at(m, c as u64) {
                        let c = choose|c: int| 0 <= c < nc && mask_qubit(a2g, dl, c) == x && #[trigger] bit_at(m, c as u64);
                        if c != b as int {
                            if c < b as int {
                                assert(mask_qubit(a2g, dl, c) != mask_qubit(a2g, dl, b as int));
                            } else {
                                assert(mask_qubit(a2g, dl, b as int) != mask_qubit(a2g, dl, c));
                            }
                        }
                    }
                    if bit_at(m, b) {
                        assert(0 <= b < nc && mask_qubit(a2g, dl, b as int) == x && bit_at(m, (b as int) as u64));
                    }
                }
            }
            lemma_masks_equal(m1, m2, n);
            let a = k1 as i64;
            let c = k2 as i64;
            assert(a == c) by (bit_vector)
                requires
                    0 <= a,
                    0 <= c,
                    (a ^ (a >> 1u64)) == (c ^ (c >> 1u64)),
            ;
        }
    }
}

/// When the rotation qubit sits on the root and the other qubits, all below
/// it, sit on distinct nodes, the sweep that `get_optimal_gray_code` builds
/// from any list of the root's distances visits each of the `2^nc` parity
/// terms from `2^nc` up to `2^(nc + 1)` once, starting at `2^nc`, and brings
/// the rotation qubit back to `2^nc`.
pub proof fn lemma_placed_sweep_visits_each_term_once(m: &RoutedMultiplexer, dl: Seq<(i64, i64)>)
    requires
        gray_code_defined(m),
        is_root_distance_list(m, dl),
        m.num_control <= 61,
        m.num_qubits == m.num_control + 1,
        m.arch_to_grey_map@[m.root] == m.num_control as usize,
        forall|u: i64, v: i64|
            #[trigger] m.arch_to_grey_map@.contains_key(u) && #[trigger] m.arch_to_grey_map@.contains_key(v) && u != v
                ==> m.arch_to_grey_map@[u] != m.arch_to_grey_map@[v],
    ensures
        ({
            let codes = vstd::arithmetic::power2::pow2(m.num_control as nat);
            let sweep = gray_build(m, dl, codes as int);
            &&& sweep.1.len() == codes
            &&& sweep.1[0] == codes
            &&& forall|k: int| 0 <= k < codes ==> codes <= #[trigger] sweep.1[k] < 2 * codes
            &&& forall|k1: int, k2: int| 0 <= k1 < k2 < codes ==> #[trigger] sweep.1[k1] != #[trigger] sweep.1[k2]
            &&& sweep.2[m.num_control] == codes
        }),
{
    let a2g = m.arch_to_grey_map@;
    let nc = m.num_control;
    assert(distance_table(&m.pairwise_dists)[m.root] == m.pairwise_dists@[m.root]@);
    lemma_root_distance_list_len(m, dl);
    assert forall|b: int| 0 <= b < nc implies #[trigger] mask_qubit(a2g, dl, b) < nc by {
        let v = dl[b].0;
        assert(a2g.contains_key(v) && v != m.root);
        assert(distance_table(&m.pairwise_dists)[m.root].contains_key(v));
        assert(a2g[v] < m.num_qubits);
        assert(a2g[v] != a2g[m.root]);
    }
    assert(distinct_mask_qubits(a2g, dl, nc as int)) by {
        assert forall|b: int, c: int| 0 <= b < c < nc implies #[trigger] mask_qubit(a2g, dl, b) != #[trigger] mask_qubit(
            a2g,
            dl,
            c,
        ) by {
            assert(dl[b].0 != dl[c].0);
            assert(a2g.contains_key(dl[b].0) && a2g.contains_key(dl[c].0));
        }
        assert forall|b: int| 0 <= b < nc implies #[trigger] mask_qubit(a2g, dl, b) < 63 by {
            assert(mask_qubit(a2g, dl, b) < nc);
        }
    }
    lemma_gray_sweep_visits_each_term_once(m.num_qubits, nc, a2g, m.root, dl);
}

/// `2^e` for `e <= 61` is a positive power of two no larger than `2^61`.
pub proof fn lemma_pow2_bound(e: nat)
    requires
        e <= 61,
    ensures
        0 < vstd::arithmetic::power2::pow2(e) <= 0x2000_0000_0000_0000,
        vstd::arithmetic::power2::pow2(e) as i64 == vstd::arithmetic::power2::pow2(e),
        (vstd::arithmetic::power2::pow2(e) as i64) & ((vstd::arithmetic::power2::pow2(e) as i64) - 1) as i64 == 0,
{
    lemma_pow2_fits(e);
    vstd::arithmetic::power2::lemma2_to64_rest();
    if e < 61 {
        vstd::arithmetic::power2::lemma_pow2_strictly_increases(e, 61);
    }
    lemma_shl_pow2(e as u64);
    let x = e as u64;
    assert((1i64 << x) & ((1i64 << x) - 1) as i64 == 0) by (bit_vector)
        requires
            x <= 61,
    ;
}

} // verus!
