//! What a long-range CNOT can emit: at most two gates per relay step, each a
//! CNOT between neighbouring qubits of the path or a Z rotation on the
//! rotation qubit.
use vstd::prelude::*;
use crate::routing::{
    GateName, RoutingGate, RoutingLog, cancel_defined, cancel_step, cnot_gate, count_of, grey_path, relay_defined,
    relay_steps, run_relay,
};

verus! {

/// `g` is a gate a relay over `steps` may leave in the queue `q`: one that was
/// there before, the CNOT of one of the steps, or a Z rotation on qubit `nc`.
pub open spec fn relay_gate(q: Seq<RoutingGate>, nc: i64, steps: Seq<(usize, usize, i64)>, g: RoutingGate) -> bool {
    ||| q.contains(g)
    ||| exists|j: int| 0 <= j < steps.len() && g == #[trigger] cnot_gate(steps[j].0, steps[j].1)
    ||| (g.name == GateName::RZ && g.ctrl == 0 && g.targ == nc as usize)
}

proof fn lemma_cancel_step_gates(nc: i64, angles: Map<i64, usize>, log: RoutingLog, cnot: RoutingGate, ignore: bool)
    requires
        cancel_defined(nc, angles, log, cnot, ignore),
    ensures
        cancel_step(nc, angles, log, cnot, ignore).0.len() <= log.0.len() + 2,
        forall|i: int| 0 <= i < cancel_step(nc, angles, log, cnot, ignore).0.len() ==> {
            let g = #[trigger] cancel_step(nc, angles, log, cnot, ignore).0[i];
            ||| log.0.contains(g)
            ||| g == cnot
            ||| (g.name == GateName::RZ && g.ctrl == 0 && g.targ == nc as usize)
        },
{
    let (q, st, disc) = log;
    let cancelled = crate::routing::same_gate(q.last(), cnot);
    let q1 = if cancelled { q.drop_last() } else { q.push(cnot) };
    assert forall|i: int| 0 <= i < q1.len() implies q.contains(#[trigger] q1[i]) || q1[i] == cnot by {
        if cancelled {
            assert(q1[i] == q[i]);
        } else if i < q.len() {
            assert(q1[i] == q[i]);
        }
    }
    let r = cancel_step(nc, angles, log, cnot, ignore).0;
    assert forall|i: int| 0 <= i < r.len() implies ({
        let g = #[trigger] r[i];
        ||| q.contains(g)
        ||| g == cnot
        ||| (g.name == GateName::RZ && g.ctrl == 0 && g.targ == nc as usize)
    }) by {
        if i < q1.len() {
            assert(r[i] == q1[i]);
        }
    }
}

/// A relay over `steps` adds at most two gates per step, and leaves only gates
/// that were there, CNOTs of its steps, and Z rotations on the rotation qubit.
pub proof fn lemma_relay_gates(nc: i64, angles: Map<i64, usize>, log: RoutingLog, steps: Seq<(usize, usize, i64)>, ignore: bool)
    requires
        relay_defined(nc, angles, log, steps, ignore),
    ensures
        run_relay(nc, angles, log, steps, ignore).0.len() <= log.0.len() + 2 * steps.len(),
        forall|i: int| 0 <= i < run_relay(nc, angles, log, steps, ignore).0.len()
            ==> relay_gate(log.0, nc, steps, #[trigger] run_relay(nc, angles, log, steps, ignore).0[i]),
    decreases steps.len(),
{
    if steps.len() > 0 {
        let pre = steps.drop_last();
        lemma_relay_gates(nc, angles, log, pre, ignore);
        let mid = run_relay(nc, angles, log, pre, ignore);
        let (c, t, slot) = steps.last();
        let st = mid.1;
        let log2 = (mid.0, st.insert(slot, st[c as i64] ^ st[t as i64]), mid.2);
        lemma_cancel_step_gates(nc, angles, log2, cnot_gate(c, t), ignore);
        let r = run_relay(nc, angles, log, steps, ignore).0;
        assert(r == cancel_step(nc, angles, log2, cnot_gate(c, t), ignore).0);
        assert forall|i: int| 0 <= i < r.len() implies relay_gate(log.0, nc, steps, #[trigger] r[i]) by {
            let g = r[i];
            assert(r[i] == cancel_step(nc, angles, log2, cnot_gate(c, t), ignore).0[i]);
            if mid.0.contains(g) {
                let k = choose|k: int| 0 <= k < mid.0.len() && mid.0[k] == g;
                assert(relay_gate(log.0, nc, pre, mid.0[k]));
                if !log.0.contains(g) && !(g.name == GateName::RZ && g.ctrl == 0 && g.targ == nc as usize) {
                    let j = choose|j: int| 0 <= j < pre.len() && g == #[trigger] cnot_gate(pre[j].0, pre[j].1);
                    assert(steps[j] == pre[j]);
                    assert(g == cnot_gate(steps[j].0, steps[j].1));
                }
            } else if g == cnot_gate(c, t) {
                let j = steps.len() - 1;
                assert(steps[j] == steps.last());
                assert(g == cnot_gate(steps[j].0, steps[j].1));
            }
        }
    }
}

proof fn lemma_relay_step_adjacent(gp: Seq<usize>, j: int)
    requires
        0 <= j < relay_steps(gp).len(),
    ensures
        exists|x: int| #![trigger gp[x]] 0 <= x < gp.len() - 1 && relay_steps(gp)[j].0 == gp[x] && relay_steps(gp)[j].1 == gp[x + 1],
{
    let len = gp.len() as int;
    let s1 = Seq::new(count_of(len - 1), |i: int| (gp[i], gp[i + 1], (i + 1) as i64));
    let s2 = Seq::new(count_of(len - 4), |i: int| (gp[len - 5 - i], gp[len - 4 - i], (len - 4 - i) as i64));
    let s3 = Seq::new(count_of(len - 2), |i: int| (gp[i + 1], gp[i + 2], (i + 2) as i64));
    let s4 = Seq::new(count_of(len - 5), |i: int| (gp[len - 5 - i], gp[len - 4 - i], (len - 4 - i) as i64));
    let all = relay_steps(gp);
    assert(all == s1 + s2 + s3 + s4);
    let n1 = s1.len() as int;
    let n2 = s2.len() as int;
    let n3 = s3.len() as int;
    let x = if j < n1 {
        j
    } else if j < n1 + n2 {
        len - 5 - (j - n1)
    } else if j < n1 + n2 + n3 {
        j - n1 - n2 + 1
    } else {
        len - 5 - (j - n1 - n2 - n3)
    };
    if j < n1 {
        assert(all[j] == s1[j]);
    } else if j < n1 + n2 {
        assert(all[j] == s2[j - n1]);
    } else if j < n1 + n2 + n3 {
        assert(all[j] == s3[j - n1 - n2]);
    } else {
        assert(all[j] == s4[j - n1 - n2 - n3]);
    }
    assert(0 <= x < gp.len() - 1 && all[j].0 == gp[x] && all[j].1 == gp[x + 1]);
}

/// A long-range CNOT takes at most four steps per node of its path.
pub proof fn lemma_relay_steps_count(gp: Seq<usize>)
    ensures
        relay_steps(gp).len() <= 4 * gp.len(),
{
    let len = gp.len() as int;
    assert(count_of(len - 1) <= len && count_of(len - 4) <= len && count_of(len - 2) <= len && count_of(len - 5) <= len);
}

/// A long-range CNOT takes at most four steps per node of its path, and its
/// step `j` acts on two neighbouring qubits of the qubit path.
pub proof fn lemma_relay_steps_shape(gp: Seq<usize>, j: int)
    requires
        0 <= j < relay_steps(gp).len(),
    ensures
        relay_steps(gp).len() <= 4 * gp.len(),
        exists|x: int| #![trigger gp[x]] 0 <= x < gp.len() - 1 && relay_steps(gp)[j].0 == gp[x] && relay_steps(gp)[j].1 == gp[x + 1],
{
    lemma_relay_step_adjacent(gp, j);
    lemma_relay_steps_count(gp);
}

/// What `long_range_cnot` leaves in the queue: at most eight gates more per
/// node of the path (two per step, four steps per node), each new gate a CNOT
/// of one of its steps (see `lemma_relay_steps_shape`) or a Z rotation on the
/// rotation qubit.
pub proof fn lemma_long_range_cnot_gates(
    nc: i64,
    angles: Map<i64, usize>,
    log: RoutingLog,
    a2g: Map<i64, usize>,
    arch_path: Seq<i64>,
    ignore: bool,
)
    requires
        relay_defined(nc, angles, log, relay_steps(grey_path(a2g, arch_path)), ignore),
    ensures
        run_relay(nc, angles, log, relay_steps(grey_path(a2g, arch_path)), ignore).0.len() <= log.0.len() + 8 * arch_path.len(),
        forall|i: int| 0 <= i < run_relay(nc, angles, log, relay_steps(grey_path(a2g, arch_path)), ignore).0.len()
            ==> relay_gate(
                log.0,
                nc,
                relay_steps(grey_path(a2g, arch_path)),
                #[trigger] run_relay(nc, angles, log, relay_steps(grey_path(a2g, arch_path)), ignore).0[i],
            ),
{
    let gp = grey_path(a2g, arch_path);
    lemma_relay_gates(nc, angles, log, relay_steps(gp), ignore);
    lemma_relay_steps_count(gp);
}

/// A long-range CNOT along a qubit path `gp` of `n >= 3` qubits relays in four
/// sweeps of nearest-neighbour CNOTs: forward along the whole path (`n - 1`
/// steps, `gp[k]` to `gp[k + 1]`); back from `gp[n - 5]` down to `gp[0]`
/// (`n - 4` steps, none on shorter paths); forward again from `gp[1]` to the end
/// (`n - 2` steps); and back from `gp[n - 5]` down to `gp[1]` (`n - 5` steps,
/// none on shorter paths). Step `k` of a sweep makes qubit slot `s` (the
/// position of the target on the path) its record.
pub proof fn lemma_relay_four_sweeps(gp: Seq<usize>)
    requires
        gp.len() >= 3,
    ensures
        ({
            let n = gp.len() as int;
            let back = if n >= 4 { n - 4 } else { 0 };
            let back2 = if n >= 5 { n - 5 } else { 0 };
            let steps = relay_steps(gp);
            &&& steps.len() == (n - 1) + back + (n - 2) + back2
            &&& forall|k: int| 0 <= k < n - 1 ==> #[trigger] steps[k] == (gp[k], gp[k + 1], (k + 1) as i64)
            &&& forall|t: int| 0 <= t < back ==> #[trigger] steps[n - 1 + t] == (gp[n - 5 - t], gp[n - 4 - t], (n - 4 - t) as i64)
            &&& forall|t: int| 0 <= t < n - 2 ==> #[trigger] steps[n - 1 + back + t] == (gp[t + 1], gp[t + 2], (t + 2) as i64)
            &&& forall|t: int| 0 <= t < back2 ==> #[trigger] steps[2 * n - 3 + back + t] == (gp[n - 5 - t], gp[n - 4 - t], (n - 4 - t) as i64)
        }),
{
    let n = gp.len() as int;
    let s1 = Seq::new(count_of(n - 1), |i: int| (gp[i], gp[i + 1], (i + 1) as i64));
    let s2 = Seq::new(count_of(n - 4), |i: int| (gp[n - 5 - i], gp[n - 4 - i], (n - 4 - i) as i64));
    let s3 = Seq::new(count_of(n - 2), |i: int| (gp[i + 1], gp[i + 2], (i + 2) as i64));
    let s4 = Seq::new(count_of(n - 5), |i: int| (gp[n - 5 - i], gp[n - 4 - i], (n - 4 - i) as i64));
    let steps = relay_steps(gp);
    assert(steps == s1 + s2 + s3 + s4);
    let back = if n >= 4 { n - 4 } else { 0 };
    assert(s2.len() == back);
    assert forall|k: int| 0 <= k < n - 1 implies #[trigger] steps[k] == (gp[k], gp[k + 1], (k + 1) as i64) by {
        assert(steps[k] == s1[k]);
    }
    assert forall|t: int| 0 <= t < back implies #[trigger] steps[n - 1 + t] == (gp[n - 5 - t], gp[n - 4 - t], (n - 4 - t) as i64) by {
        assert(steps[n - 1 + t] == s2[t]);
    }
    assert forall|t: int| 0 <= t < n - 2 implies #[trigger] steps[n - 1 + back + t] == (gp[t + 1], gp[t + 2], (t + 2) as i64) by {
        assert(steps[n - 1 + back + t] == s3[t]);
    }
    let back2 = if n >= 5 { n - 5 } else { 0 };
    assert forall|t: int| 0 <= t < back2 implies #[trigger] steps[2 * n - 3 + back + t] == (gp[n - 5 - t], gp[n - 4 - t], (n - 4 - t) as i64) by {
        assert(steps[2 * n - 3 + back + t] == s4[t]);
    }
}

/// Over a path of five qubits the relay places eight CNOTs, and its fifth,
/// which opens the backward sweep, is the one from `gp[0]` to `gp[1]`.
pub proof fn lemma_relay_five_qubits(gp: Seq<usize>)
    requires
        gp.len() == 5,
    ensures
        relay_steps(gp).len() == 8,
        relay_steps(gp)[4] == (gp[0], gp[1], 1i64),
{
    lemma_relay_four_sweeps(gp);
    assert(relay_steps(gp)[5 - 1 + 0] == (gp[0], gp[1], 1i64));
}

} // verus!
