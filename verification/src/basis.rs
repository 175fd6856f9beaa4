//! Where CNOT and SWAP gates send each computational basis state, and the
//! signs of the angle transform of a uniformly controlled rotation. The
//! matrices themselves are complex floating point and are built outside the
//! library from these.
use vstd::prelude::*;

verus! {

/// Bit `k` of `x`.
pub open spec fn bit(x: u64, k: u64) -> bool {
    (x >> k) & 1 == 1
}

/// The basis state `j` after a CNOT from `ctrl` to `targ`: bit `targ` flips
/// when bit `ctrl` is set.
pub open spec fn cnot_map(j: u64, ctrl: u64, targ: u64) -> u64 {
    if (j >> ctrl) & 1 == 1 {
        j ^ (1u64 << targ)
    } else {
        j
    }
}

/// The basis state `j` after a SWAP of qubits `a` and `b`: the two bits
/// trade places.
pub open spec fn swap_map(j: u64, a: u64, b: u64) -> u64 {
    if (j >> a) & 1 != (j >> b) & 1 {
        j ^ ((1u64 << a) | (1u64 << b))
    } else {
        j
    }
}

/// The basis state `j` after a CNOT from `ctrl` to `targ`.
pub fn cnot_image(j: u64, ctrl: u64, targ: u64) -> (r: u64)
    requires
        ctrl < 64,
        targ < 64,
    ensures
        r == cnot_map(j, ctrl, targ),
        forall|k: u64| k < 64 ==> #[trigger] bit(r, k) == if k == targ && bit(j, ctrl) {
            !bit(j, k)
        } else {
            bit(j, k)
        },
{
    let r = if (j >> ctrl) & 1 == 1 {
        j ^ (1u64 << targ)
    } else {
        j
    };
    assert(forall|k: u64| k < 64 ==> #[trigger] bit(r, k) == if k == targ && bit(j, ctrl) {
        !bit(j, k)
    } else {
        bit(j, k)
    }) by (bit_vector)
        requires
            ctrl < 64,
            targ < 64,
            r == if (j >> ctrl) & 1 == 1 {
                j ^ (1u64 << targ)
            } else {
                j
            },
    ;
    r
}

/// The basis state `j` after a SWAP of qubits `a` and `b`.
pub fn swap_image(j: u64, a: u64, b: u64) -> (r: u64)
    requires
        a < 64,
        b < 64,
    ensures
        r == swap_map(j, a, b),
        forall|k: u64| k < 64 ==> #[trigger] bit(r, k) == if k == a {
            bit(j, b)
        } else if k == b {
            bit(j, a)
        } else {
            bit(j, k)
        },
{
    let ba = (j >> a) & 1;
    let bb = (j >> b) & 1;
    let r = if ba != bb {
        j ^ ((1u64 << a) | (1u64 << b))
    } else {
        j
    };
    assert(forall|k: u64| k < 64 ==> #[trigger] bit(r, k) == if k == a {
        bit(j, b)
    } else if k == b {
        bit(j, a)
    } else {
        bit(j, k)
    }) by (bit_vector)
        requires
            a < 64,
            b < 64,
            r == if (j >> a) & 1 != (j >> b) & 1 {
                j ^ ((1u64 << a) | (1u64 << b))
            } else {
                j
            },
    ;
    r
}

/// Whether the low `n` bits of `x` hold an odd number of ones.
pub open spec fn odd_ones(x: u64, n: nat) -> bool
    decreases n,
{
    if n == 0 {
        false
    } else {
        odd_ones(x, (n - 1) as nat) != bit(x, (n - 1) as u64)
    }
}

/// Whether `g` and `j` share an odd number of set bits: the sign of angle
/// `j` in the transformed angle of code `g` is negative exactly then.
pub fn odd_overlap(g: u64, j: u64) -> (r: bool)
    ensures
        r == odd_ones(g & j, 64),
{
    let x = g & j;
    let mut odd = false;
    let mut k: u64 = 0;
    while k < 64
        invariant
            0 <= k <= 64,
            x == g & j,
            odd == odd_ones(x, k as nat),
        decreases 64 - k,
    {
        let set = (x >> k) & 1 == 1;
        odd = odd != set;
        k = k + 1;
    }
    odd
}

/// The code of angle `i` in the transform: the `i`-th entry of the Gray code
/// when there is one (as the unsigned integer of the same bits), otherwise the
/// reflected Gray code `i ^ (i >> 1)`.
pub fn angle_code(i: u64, gray_code: Option<&Vec<i64>>) -> (r: u64)
    requires
        gray_code matches Some(v) ==> i < v.len(),
    ensures
        gray_code is None ==> r == i ^ (i >> 1),
        gray_code matches Some(v) ==> r == v@[i as int] as u64,
{
    match gray_code {
        None => i ^ (i >> 1),
        Some(v) => v[i as usize] as u64,
    }
}

/// A CNOT undoes itself: applied twice it gives back every basis state.
pub proof fn lemma_cnot_involution(j: u64, ctrl: u64, targ: u64)
    requires
        ctrl < 64,
        targ < 64,
        ctrl != targ,
    ensures
        cnot_map(cnot_map(j, ctrl, targ), ctrl, targ) == j,
{
    let once = cnot_map(j, ctrl, targ);
    let twice = cnot_map(once, ctrl, targ);
    assert(twice == j) by (bit_vector)
        requires
            ctrl < 64,
            targ < 64,
            ctrl != targ,
            once == if (j >> ctrl) & 1 == 1 {
                j ^ (1u64 << targ)
            } else {
                j
            },
            twice == if (once >> ctrl) & 1 == 1 {
                once ^ (1u64 << targ)
            } else {
                once
            },
    ;
}

/// A SWAP undoes itself, and it is three CNOTs: from `a` to `b`, from `b` to
/// `a`, and from `a` to `b` again.
pub proof fn lemma_swap_laws(j: u64, a: u64, b: u64)
    requires
        a < 64,
        b < 64,
        a != b,
    ensures
        swap_map(swap_map(j, a, b), a, b) == j,
        swap_map(j, a, b) == cnot_map(cnot_map(cnot_map(j, a, b), b, a), a, b),
{
    let s1 = swap_map(j, a, b);
    let s2 = swap_map(s1, a, b);
    assert(s2 == j) by (bit_vector)
        requires
            a < 64,
            b < 64,
            s1 == if (j >> a) & 1 != (j >> b) & 1 {
                j ^ ((1u64 << a) | (1u64 << b))
            } else {
                j
            },
            s2 == if (s1 >> a) & 1 != (s1 >> b) & 1 {
                s1 ^ ((1u64 << a) | (1u64 << b))
            } else {
                s1
            },
    ;
    let c1 = cnot_map(j, a, b);
    let c2 = cnot_map(c1, b, a);
    let c3 = cnot_map(c2, a, b);
    assert(s1 == c3) by (bit_vector)
        requires
            a < 64,
            b < 64,
            a != b,
            s1 == if (j >> a) & 1 != (j >> b) & 1 {
                j ^ ((1u64 << a) | (1u64 << b))
            } else {
                j
            },
            c1 == if (j >> a) & 1 == 1 {
                j ^ (1u64 << b)
            } else {
                j
            },
            c2 == if (c1 >> b) & 1 == 1 {
                c1 ^ (1u64 << a)
            } else {
                c1
            },
            c3 == if (c2 >> a) & 1 == 1 {
                c2 ^ (1u64 << b)
            } else {
                c2
            },
    ;
}

} // verus!
