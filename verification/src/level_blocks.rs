//! The integer side of one level of the block-ZXZ synthesis: its three blocks
//! of gates, and the order in which a block is emitted between the SWAPs
//! that move the level's rotation qubit.
use std::collections::{HashMap, VecDeque};
use vstd::prelude::*;
use crate::block_zxz::{
    BlockZXZ, absorb_defined, absorb_trailing_cnots, absorbed, can_absorb, remap_gates, remapped, swap_chain,
};
use crate::routing::{GateName, RoutingGate, copy_gates, copy_values};

verus! {

broadcast use vstd::std_specs::hash::group_hash_axioms;

/// `swap_map` renames the control and the target of every gate of `gates`.
pub open spec fn renames_all(gates: Seq<RoutingGate>, swap_map: Map<usize, usize>) -> bool {
    forall|i: int| 0 <= i < gates.len() ==> swap_map.contains_key(#[trigger] gates[i].ctrl) && swap_map.contains_key(gates[i].targ)
}

/// `gates`, renamed by the swap map when the level has one.
pub open spec fn renamed_by(gates: Seq<RoutingGate>, swap_map: Option<Map<usize, usize>>) -> Seq<RoutingGate> {
    match swap_map {
        Some(z) => remapped(gates, z),
        None => gates,
    }
}

/// The view of an optional swap map.
pub open spec fn swap_map_view(swap_map: Option<&HashMap<usize, usize>>) -> Option<Map<usize, usize>> {
    match swap_map {
        Some(z) => Some(z@),
        None => None,
    }
}

/// The blocks of a level can be formed from its routed gates: the trailing
/// CNOTs of block C can be absorbed (see `absorb_defined`), and a swap map, if
/// there is one, renames every qubit of the three blocks.
pub open spec fn level_blocks_defined(routed: Seq<RoutingGate>, tq: int, swap_map: Option<Map<usize, usize>>) -> bool {
    let (c, a, _) = absorbed(routed, routed, tq);
    &&& absorb_defined(routed, routed, tq)
    &&& swap_map matches Some(z) ==> renames_all(a, z) && renames_all(routed, z) && renames_all(c, z)
}

/// The blocks of a level from its routed gates: C and A start as the routed
/// gates, C's trailing CNOTs are absorbed into the middle (A giving up what
/// `absorbed` says), B keeps the routed gates, and all three are renamed by
/// the swap map when there is one. Returns blocks A, B and C and the absorbed
/// CNOTs in the order absorbed, or `None` when the blocks cannot be formed.
pub fn level_gate_blocks(
    routed: &VecDeque<RoutingGate>,
    target_qubit: usize,
    swap_map: Option<&HashMap<usize, usize>>,
) -> (r: Option<(VecDeque<RoutingGate>, VecDeque<RoutingGate>, VecDeque<RoutingGate>, Vec<RoutingGate>)>)
    requires
        target_qubit < usize::MAX,
    ensures
        r is Some <==> level_blocks_defined(routed@, target_qubit as int, swap_map_view(swap_map)),
        r matches Some(b) ==> {
            let (c, a, ab) = absorbed(routed@, routed@, target_qubit as int);
            &&& b.0@ == renamed_by(a, swap_map_view(swap_map))
            &&& b.1@ == renamed_by(routed@, swap_map_view(swap_map))
            &&& b.2@ == renamed_by(c, swap_map_view(swap_map))
            &&& b.3@ == ab
        },
{
    if !can_absorb(routed, routed, target_qubit) {
        return None;
    }
    let mut gates_c = copy_gates(routed);
    let mut gates_a = copy_gates(routed);
    let mut gates_b = copy_gates(routed);
    let applied = absorb_trailing_cnots(&mut gates_c, &mut gates_a, target_qubit);
    match swap_map {
        Some(z) => {
            let ok_a = all_renamed(&gates_a, z);
            let ok_b = all_renamed(&gates_b, z);
            let ok_c = all_renamed(&gates_c, z);
            if !(ok_a && ok_b && ok_c) {
                return None;
            }
            remap_gates(&mut gates_a, z);
            remap_gates(&mut gates_b, z);
            remap_gates(&mut gates_c, z);
        },
        None => {},
    }
    Some((gates_a, gates_b, gates_c, applied))
}

/// Whether `swap_map` renames every qubit of `gates`.
fn all_renamed(gates: &VecDeque<RoutingGate>, swap_map: &HashMap<usize, usize>) -> (r: bool)
    ensures
        r == renames_all(gates@, swap_map@),
{
    let mut i: usize = 0;
    while i < gates.len()
        invariant
            0 <= i <= gates.len(),
            renames_all(gates@.take(i as int), swap_map@),
        decreases gates.len() - i,
    {
        let g = gates[i];
        if !swap_map.contains_key(&g.ctrl) || !swap_map.contains_key(&g.targ) {
            proof {
                assert(gates@[i as int] == g);
            }
            return false;
        }
        proof {
            assert forall|k: int| 0 <= k < i + 1 implies swap_map@.contains_key(#[trigger] gates@.take(i + 1)[k].ctrl)
                && swap_map@.contains_key(gates@.take(i + 1)[k].targ) by {
                if k < i {
                    assert(gates@.take(i as int)[k] == gates@.take(i + 1)[k]);
                } else {
                    assert(gates@[i as int] == g);
                }
            }
        }
        i = i + 1;
    }
    proof {
        assert(gates@.take(gates.len() as int) =~= gates@);
    }
    true
}

/// A Hadamard on qubit `q`.
pub open spec fn hadamard_gate(q: usize) -> RoutingGate {
    RoutingGate { name: GateName::H, ctrl: 0, targ: q, angle: 0 }
}

/// The nodes along which `level` moves its rotation qubit: those stored for
/// the level, when the level has a swap map.
pub open spec fn level_path(z: &BlockZXZ, level: i64) -> Option<Seq<i64>> {
    if z.swap_maps@.contains_key(level) && z.swap_maps@[level] is Some && z.swaps_per_level@.contains_key(level)
        && z.swaps_per_level@[level] is Some {
        Some(z.swaps_per_level@[level]->0@)
    } else {
        None
    }
}

/// A block of `level` can be emitted: the level's path, if it has one, is
/// non-empty and every node on it has a qubit in the first placement.
pub open spec fn emission_defined(z: &BlockZXZ, level: i64) -> bool {
    level_path(z, level) matches Some(p) ==> {
        &&& p.len() >= 1
        &&& forall|i: int| 0 <= i < p.len() ==> z.original_multiplexer.arch_to_grey_map@.contains_key(#[trigger] p[i])
    }
}

/// What a block of `level` emits: when the level moves its rotation qubit,
/// the SWAPs back along its path, the block's gates, and the SWAPs forward
/// again; the middle block is wrapped in Hadamards on the target qubit,
/// outside its SWAPs.
pub open spec fn block_emission(z: &BlockZXZ, level: i64, gates: Seq<RoutingGate>, middle: bool, tq: usize) -> Seq<RoutingGate> {
    let a2g = z.original_multiplexer.arch_to_grey_map@;
    let h = if middle {
        seq![hadamard_gate(tq)]
    } else {
        Seq::<RoutingGate>::empty()
    };
    match level_path(z, level) {
        Some(p) => h + swap_chain(a2g, p, true) + gates + swap_chain(a2g, p, false) + h,
        None => h + gates + h,
    }
}

impl BlockZXZ {
    /// Appends the gates one block of `level` emits (see `block_emission`) to
    /// the plan's queue; returns `false`, appending nothing, when the level's
    /// path has a node without a qubit or is empty.
    pub fn emit_block(&mut self, level: i64, gates: &VecDeque<RoutingGate>, middle: bool, target_qubit: usize) -> (ok: bool)
        ensures
            ok == emission_defined(old(self), level),
            ok ==> final(self).gate_queue@ == old(self).gate_queue@ + block_emission(old(self), level, gates@, middle, target_qubit),
            !ok ==> final(self).gate_queue@ == old(self).gate_queue@,
            final(self).coupling_map@ == old(self).coupling_map@,
            final(self).original_multiplexer == old(self).original_multiplexer,
            final(self).routed_multiplexers@ == old(self).routed_multiplexers@,
            final(self).swaps_per_level@ == old(self).swaps_per_level@,
            final(self).swap_maps@ == old(self).swap_maps@,
    {
        let ghost z0 = *self;
        let swapped = match self.swap_maps.get(&level) {
            Some(Some(_)) => true,
            _ => false,
        };
        let path: Option<Vec<i64>> = if swapped {
            match self.swaps_per_level.get(&level) {
                Some(Some(p)) => Some(copy_values(p)),
                _ => None,
            }
        } else {
            None
        };
        proof {
            assert(path matches Some(p) ==> level_path(&z0, level) == Some(p@));
            assert(path is None ==> level_path(&z0, level) is None);
        }
        match &path {
            Some(p) => {
                if p.len() == 0 {
                    return false;
                }
                let mut k: usize = 0;
                while k < p.len()
                    invariant
                        0 <= k <= p.len(),
                        self.original_multiplexer == z0.original_multiplexer,
                        level_path(&z0, level) == Some(p@),
                        z0 == *old(self),
                        forall|i: int| 0 <= i < k ==> self.original_multiplexer.arch_to_grey_map@.contains_key(#[trigger] p@[i]),
                    decreases p.len() - k,
                {
                    if !self.original_multiplexer.arch_to_grey_map.contains_key(&p[k]) {
                        proof {
                            assert(!z0.original_multiplexer.arch_to_grey_map@.contains_key(p@[k as int]));
                            let lp = level_path(&z0, level)->0;
                            assert(lp == p@);
                            assert(!z0.original_multiplexer.arch_to_grey_map@.contains_key(lp[k as int]));
                            assert(!emission_defined(&z0, level));
                        }
                        return false;
                    }
                    k = k + 1;
                }
            },
            None => {},
        }
        let ghost h = if middle {
            seq![hadamard_gate(target_qubit)]
        } else {
            Seq::<RoutingGate>::empty()
        };
        if middle {
            self.gate_queue.push_back(RoutingGate { name: GateName::H, ctrl: 0, targ: target_qubit, angle: 0 });
        }
        proof {
            assert(self.gate_queue@ == z0.gate_queue@ + h);
        }
        let ghost after_back = self.gate_queue@;
        match &path {
            Some(p) => {
                self.swap_to(copy_values(p), true);
            },
            None => {},
        }
        let ghost q1 = self.gate_queue@;
        let mut i: usize = 0;
        while i < gates.len()
            invariant
                0 <= i <= gates.len(),
                self.gate_queue@ == q1 + gates@.take(i as int),
                self.coupling_map@ == z0.coupling_map@,
                self.original_multiplexer == z0.original_multiplexer,
                self.routed_multiplexers@ == z0.routed_multiplexers@,
                self.swaps_per_level@ == z0.swaps_per_level@,
                self.swap_maps@ == z0.swap_maps@,
            decreases gates.len() - i,
        {
            self.gate_queue.push_back(gates[i]);
            proof {
                assert(gates@.take(i + 1) =~= gates@.take(i as int).push(gates@[i as int]));
            }
            i = i + 1;
        }
        proof {
            assert(gates@.take(gates.len() as int) =~= gates@);
        }
        match &path {
            Some(p) => {
                self.swap_to(copy_values(p), false);
            },
            None => {},
        }
        if middle {
            self.gate_queue.push_back(RoutingGate { name: GateName::H, ctrl: 0, targ: target_qubit, angle: 0 });
        }
        proof {
            let a2g = z0.original_multiplexer.arch_to_grey_map@;
            match level_path(&z0, level) {
                Some(lp) => {
                    assert(self.gate_queue@ =~= z0.gate_queue@ + (h + swap_chain(a2g, lp, true) + gates@ + swap_chain(a2g, lp, false) + h));
                },
                None => {
                    assert(self.gate_queue@ =~= z0.gate_queue@ + (h + gates@ + h));
                },
            }
        }
        true
    }
}

/// Absorption moves only narrow CNOTs into the middle block: every absorbed
/// CNOT has both its control and its target at most the target qubit (the
/// CNOT from qubit 0 to qubit 1 that a trailing rotation lets through among
/// them, which needs a target qubit of at least 1). And it stops only where it
/// must: what is left of block C is empty or ends in a Z rotation or in a gate
/// with a qubit above the target qubit.
pub proof fn lemma_absorbed_are_narrow(gc: Seq<RoutingGate>, ga: Seq<RoutingGate>, tq: int)
    requires
        tq >= 1,
    ensures
        forall|i: int| 0 <= i < absorbed(gc, ga, tq).2.len() ==> {
            &&& (#[trigger] absorbed(gc, ga, tq).2[i]).ctrl <= tq
            &&& absorbed(gc, ga, tq).2[i].targ <= tq
        },
        absorbed(gc, ga, tq).0.len() == 0 || absorbed(gc, ga, tq).0.last().name == GateName::RZ
            || absorbed(gc, ga, tq).0.last().ctrl > tq || absorbed(gc, ga, tq).0.last().targ > tq,
    decreases gc.len(),
{
    if gc.len() > 0 {
        let g = gc.last();
        let rest = gc.drop_last();
        if g.name == GateName::RZ {
            if rest.len() > 0 {
                let nx = rest.last();
                if nx.ctrl == 0 && nx.targ == 1 {
                    let gc2 = rest.drop_last().push(g);
                    let ga2 = crate::block_zxz::drop_second(ga);
                    lemma_absorbed_are_narrow(gc2, ga2, tq);
                    let r = absorbed(gc2, ga2, tq);
                    assert(absorbed(gc, ga, tq) == (r.0, r.1, seq![nx] + r.2));
                    assert forall|i: int| 0 <= i < absorbed(gc, ga, tq).2.len() implies {
                        &&& (#[trigger] absorbed(gc, ga, tq).2[i]).ctrl <= tq
                        &&& absorbed(gc, ga, tq).2[i].targ <= tq
                    } by {
                        if i > 0 {
                            assert(absorbed(gc, ga, tq).2[i] == r.2[i - 1]);
                        }
                    }
                }
            }
        } else if !(g.ctrl >= tq + 1 || g.targ >= tq + 1) {
            lemma_absorbed_are_narrow(rest, ga.drop_first(), tq);
            let r = absorbed(rest, ga.drop_first(), tq);
            assert(absorbed(gc, ga, tq) == (r.0, r.1, seq![g] + r.2));
            assert forall|i: int| 0 <= i < absorbed(gc, ga, tq).2.len() implies {
                &&& (#[trigger] absorbed(gc, ga, tq).2[i]).ctrl <= tq
                &&& absorbed(gc, ga, tq).2[i].targ <= tq
            } by {
                if i > 0 {
                    assert(absorbed(gc, ga, tq).2[i] == r.2[i - 1]);
                }
            }
        }
    }
}

} // verus!
