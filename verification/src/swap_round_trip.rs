//! SWAP chains on computational basis states: carrying a qubit along a path
//! and back leaves every basis state where it was.
use vstd::prelude::*;
use crate::basis::swap_map;
use crate::block_zxz::{lemma_swap_chain_reverse, swap_chain};
use crate::routing::RoutingGate;

verus! {

/// The basis state `j` after the SWAPs of `gates`, applied first to last, each
/// exchanging the bits of its two qubits.
pub open spec fn swaps_image(j: u64, gates: Seq<RoutingGate>) -> u64
    decreases gates.len(),
{
    if gates.len() == 0 {
        j
    } else {
        swap_map(swaps_image(j, gates.drop_last()), gates.last().ctrl as u64, gates.last().targ as u64)
    }
}

/// Every gate of `gates` acts on qubits below 64.
pub open spec fn on_basis_qubits(gates: Seq<RoutingGate>) -> bool {
    forall|i: int| 0 <= i < gates.len() ==> #[trigger] gates[i].ctrl < 64 && gates[i].targ < 64
}

proof fn lemma_swap_twice(j: u64, a: u64, b: u64)
    requires
        a < 64,
        b < 64,
    ensures
        swap_map(swap_map(j, a, b), a, b) == j,
{
    let s1 = swap_map(j, a, b);
    let s2 = swap_map(s1, a, b);
    assert(s2 == j) by (bit_vector)
        requires
            a < 64,
            b < 64,
            s1 == if (j >> a) & 1 != (j >> b) & 1 {
                j ^ ((1u64 << a) | (1u64 << b))
            } else {
                j
            },
            s2 == if (s1 >> a) & 1 != (s1 >> b) & 1 {
                s1 ^ ((1u64 << a) | (1u64 << b))
            } else {
                s1
            },
    ;
}

proof fn lemma_swaps_image_append(j: u64, a: Seq<RoutingGate>, b: Seq<RoutingGate>)
    ensures
        swaps_image(j, a + b) == swaps_image(swaps_image(j, a), b),
    decreases b.len(),
{
    if b.len() == 0 {
        assert(a + b =~= a);
    } else {
        lemma_swaps_image_append(j, a, b.drop_last());
        assert((a + b).drop_last() =~= a + b.drop_last());
        assert((a + b).last() == b.last());
    }
}

proof fn lemma_swaps_mirror(j: u64, s: Seq<RoutingGate>)
    requires
        on_basis_qubits(s),
    ensures
        swaps_image(j, s + s.reverse()) == j,
    decreases s.len(),
{
    if s.len() > 0 {
        let t = s.drop_last();
        let x = s.last();
        let xx = seq![x, x];
        assert(on_basis_qubits(t)) by {
            assert forall|i: int| 0 <= i < t.len() implies #[trigger] t[i].ctrl < 64 && t[i].targ < 64 by {
                assert(s[i] == t[i]);
            }
        }
        assert(s[s.len() - 1] == x);
        lemma_swaps_mirror(j, t);
        assert(s + s.reverse() =~= (t + xx) + t.reverse());
        lemma_swaps_image_append(j, t + xx, t.reverse());
        lemma_swaps_image_append(j, t, xx);
        let y = swaps_image(j, t);
        assert(xx.drop_last() =~= seq![x]);
        assert(seq![x].drop_last() =~= Seq::<RoutingGate>::empty());
        assert(xx.last() == x);
        assert(seq![x].last() == x);
        assert(swaps_image(y, Seq::<RoutingGate>::empty()) == y);
        assert(swaps_image(y, seq![x]) == swap_map(y, x.ctrl as u64, x.targ as u64));
        lemma_swap_twice(y, x.ctrl as u64, x.targ as u64);
        assert(swaps_image(y, xx) == y);
        lemma_swaps_image_append(j, t, t.reverse());
    } else {
        assert(s + s.reverse() =~= Seq::<RoutingGate>::empty());
    }
}

/// Carrying a qubit forward along a path and back again moves no basis state:
/// each of `swap_to(path, false)` and `swap_to(path, true)` appends one SWAP
/// per edge of the path, and together the appended SWAPs send every basis
/// state `j` back to itself (when the qubits of the path are below 64).
pub proof fn lemma_swap_round_trip(a2g: Map<i64, usize>, path: Seq<i64>, j: u64)
    requires
        path.len() >= 1,
        forall|i: int| 0 <= i < path.len() ==> a2g.contains_key(#[trigger] path[i]) && a2g[path[i]] < 64,
    ensures
        swap_chain(a2g, path, false).len() == path.len() - 1,
        swap_chain(a2g, path, true).len() == path.len() - 1,
        swaps_image(j, swap_chain(a2g, path, false) + swap_chain(a2g, path, true)) == j,
{
    let fwd = swap_chain(a2g, path, false);
    lemma_swap_chain_reverse(a2g, path);
    assert(on_basis_qubits(fwd)) by {
        assert forall|i: int| 0 <= i < fwd.len() implies #[trigger] fwd[i].ctrl < 64 && fwd[i].targ < 64 by {
            assert(a2g[path[i]] < 64);
            assert(a2g[path[i + 1]] < 64);
        }
    }
    lemma_swaps_mirror(j, fwd);
}

} // verus!
