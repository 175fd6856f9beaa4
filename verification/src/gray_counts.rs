//! Why the controls' CNOT counts are what they are: over the `2^nc` codes of
//! the Gray-code sweep, control `b` (the `b`-th node from the root) is relayed
//! exactly as often as its count says, and the counts add up to the number of
//! codes.
use vstd::prelude::*;
use vstd::arithmetic::power2::pow2;
use crate::gray_code::{
    cnot_counts, gray_code_cost, highest_flip, is_reordering, lemma_flip_low_clear, lemma_pow2_fits, lemma_shl_pow2, low_clear,
    relay_cost, reorders_by, weighted_cost, zip_len,
};

verus! {

/// How many of the codes `1..=n` of a sweep over `nc` controls relay control
/// `b`, the one whose bit the code flips.
pub open spec fn flip_count(nc: i64, b: int, n: int) -> int
    decreases n,
{
    if n <= 0 {
        0
    } else {
        flip_count(nc, b, n - 1) + if highest_flip(n as i64, nc) - 1 == b {
            1int
        } else {
            0
        }
    }
}

/// The sum of the first `j` entries of `s`.
pub open spec fn prefix_sum(s: Seq<i64>, j: int) -> int
    decreases j,
{
    if j <= 0 {
        0
    } else {
        prefix_sum(s, j - 1) + s[j - 1]
    }
}

proof fn lemma_low_clear_mod(i: i64, c: u64)
    requires
        0 <= i,
        c <= 61,
    ensures
        low_clear(i, c) == (i % (pow2(c as nat) as i64) == 0),
{
    lemma_shl_pow2(c);
    lemma_pow2_fits(c as nat);
    let x = i as u64;
    vstd::bits::lemma_u64_low_bits_mask_is_mod(x, c as nat);
    vstd::bits::lemma_u64_shl_is_mul(1u64, c);
    assert(vstd::bits::low_bits_mask(c as nat) as u64 == ((1u64 << c) - 1) as u64);
    assert((i & (((1i64 << c) - 1) as i64) == 0) == (x & (((1u64 << c) - 1) as u64) == 0)) by (bit_vector)
        requires
            0 <= i,
            c <= 61,
            x == i as u64,
    ;
    assert(x % (pow2(c as nat) as u64) == i % (pow2(c as nat) as i64));
}

proof fn lemma_low_clear_lower(i: i64, c: u64, d: u64)
    requires
        0 <= i,
        d <= c <= 61,
        low_clear(i, c),
    ensures
        low_clear(i, d),
{
    assert(i & (((1i64 << d) - 1) as i64) == 0) by (bit_vector)
        requires
            0 <= i,
            d <= c <= 61,
            i & (((1i64 << c) - 1) as i64) == 0,
    ;
}

/// Code `i` relays control `b` exactly when `2^b` divides `i` and, below the
/// top control, `2^(b + 1)` does not.
proof fn lemma_flip_is(i: i64, nc: i64, b: int)
    requires
        1 <= nc <= 61,
        1 <= i <= pow2(nc as nat),
        0 <= b < nc,
    ensures
        (highest_flip(i, nc) - 1 == b) == (i % (pow2(b as nat) as i64) == 0 && (b == nc - 1 || i % (pow2(
            (b + 1) as nat,
        ) as i64) != 0)),
{
    lemma_pow2_fits(nc as nat);
    vstd::arithmetic::power2::lemma2_to64_rest();
    if nc < 61 {
        vstd::arithmetic::power2::lemma_pow2_strictly_increases(nc as nat, 61);
    }
    lemma_flip_low_clear(i, nc);
    let f = highest_flip(i, nc) - 1;
    lemma_low_clear_mod(i, b as u64);
    if b + 1 <= 61 {
        lemma_low_clear_mod(i, (b + 1) as u64);
    }
    if f < b {
        assert(!low_clear(i, (f + 1) as u64));
        if low_clear(i, b as u64) {
            lemma_low_clear_lower(i, b as u64, (f + 1) as u64);
        }
    } else if f > b {
        lemma_low_clear_lower(i, f as u64, (b + 1) as u64);
    }
}

/// `n / m` grows by one exactly at the multiples of `m`.
proof fn lemma_div_step(n: int, m: int)
    requires
        1 <= n,
        1 <= m,
    ensures
        n / m == (n - 1) / m + if n % m == 0 { 1int } else { 0 },
{
    let q = (n - 1) / m;
    let r = (n - 1) % m;
    vstd::arithmetic::div_mod::lemma_fundamental_div_mod(n - 1, m);
    assert(0 <= r < m) by {
        vstd::arithmetic::div_mod::lemma_mod_bound(n - 1, m);
    }
    assert(n - 1 == q * m + r) by (nonlinear_arith)
        requires
            n - 1 == m * q + r,
    ;
    if r + 1 == m {
        assert(n == (q + 1) * m + 0) by (nonlinear_arith)
            requires
                n - 1 == q * m + r,
                r + 1 == m,
        ;
        vstd::arithmetic::div_mod::lemma_fundamental_div_mod_converse(n, m, q + 1, 0);
    } else {
        assert(n == q * m + (r + 1));
        vstd::arithmetic::div_mod::lemma_fundamental_div_mod_converse(n, m, q, r + 1);
    }
}

/// A multiple of `2^(b + 1)` is a multiple of `2^b`.
proof fn lemma_mod_pow2_lower(n: int, b: nat)
    requires
        0 <= n,
        b <= 60,
        n % (pow2(b + 1) as int) == 0,
    ensures
        n % (pow2(b) as int) == 0,
{
    vstd::arithmetic::power2::lemma_pow2_unfold(b + 1);
    vstd::arithmetic::power2::lemma_pow2_pos(b);
    let p: int = pow2(b) as int;
    vstd::arithmetic::div_mod::lemma_fundamental_div_mod(n, 2 * p);
    let q = n / (2 * p);
    assert(n == (2 * q) * p + 0) by (nonlinear_arith)
        requires
            n == (2 * p) * q + n % (2 * p),
            n % (2 * p) == 0,
    ;
    vstd::arithmetic::div_mod::lemma_fundamental_div_mod_converse(n, p, 2 * q, 0);
}

/// Over the codes `1..=n`, control `b` below the top is relayed
/// `n / 2^b - n / 2^(b + 1)` times, and the top control `n / 2^(nc - 1)` times.
proof fn lemma_flip_count_closed(nc: i64, b: int, n: int)
    requires
        1 <= nc <= 61,
        0 <= b < nc,
        0 <= n <= pow2(nc as nat),
    ensures
        b < nc - 1 ==> flip_count(nc, b, n) == n / (pow2(b as nat) as int) - n / (pow2((b + 1) as nat) as int),
        b == nc - 1 ==> flip_count(nc, b, n) == n / (pow2(b as nat) as int),
    decreases n,
{
    vstd::arithmetic::power2::lemma_pow2_pos(b as nat);
    vstd::arithmetic::power2::lemma_pow2_pos((b + 1) as nat);
    if n > 0 {
        lemma_flip_count_closed(nc, b, n - 1);
        lemma_pow2_fits(nc as nat);
        lemma_pow2_fits(b as nat);
        lemma_pow2_fits((b + 1) as nat);
        let i = n as i64;
        lemma_flip_is(i, nc, b);
        lemma_div_step(n, pow2(b as nat) as int);
        lemma_div_step(n, pow2((b + 1) as nat) as int);
        if b < nc - 1 && n % (pow2((b + 1) as nat) as int) == 0 {
            lemma_mod_pow2_lower(n, b as nat);
        }
    }
}

/// `2^e / 2^c` is `2^(e - c)`.
proof fn lemma_pow2_div(e: nat, c: nat)
    requires
        c <= e,
    ensures
        pow2(e) / pow2(c) == pow2((e - c) as nat),
{
    vstd::arithmetic::power2::lemma_pow2_adds((e - c) as nat, c);
    vstd::arithmetic::power2::lemma_pow2_pos(c);
    assert(pow2(e) == pow2((e - c) as nat) * pow2(c) + 0);
    vstd::arithmetic::div_mod::lemma_fundamental_div_mod_converse(pow2(e) as int, pow2(c) as int, pow2((e - c) as nat) as int, 0);
}

/// Over the whole sweep of `2^nc` codes, control `b` is relayed exactly as
/// many times as its CNOT count says: `2^(nc - 1 - b)` times below the top
/// control and twice for the top control, which is `cnot_counts((nc + 1) as i64)[b]`.
pub proof fn lemma_counts_match_sweep(nc: i64, b: int)
    requires
        1 <= nc <= 61,
        0 <= b < nc,
    ensures
        cnot_counts((nc + 1) as i64).len() == nc,
        flip_count(nc, b, pow2(nc as nat) as int) == cnot_counts((nc + 1) as i64)[b],
{
    let n = pow2(nc as nat) as int;
    lemma_flip_count_closed(nc, b, n);
    lemma_pow2_div(nc as nat, b as nat);
    let e = if nc - 1 - b > 1 { nc - 1 - b } else { 1 };
    lemma_pow2_fits(e as nat);
    if b < nc - 1 {
        lemma_pow2_div(nc as nat, (b + 1) as nat);
        vstd::arithmetic::power2::lemma_pow2_unfold((nc - b) as nat);
        assert(cnot_counts((nc + 1) as i64)[b] == pow2((nc - 1 - b) as nat));
    } else {
        assert(pow2(1) == 2) by {
            vstd::arithmetic::power2::lemma2_to64();
        }
        assert(cnot_counts((nc + 1) as i64)[b] == pow2(1));
    }
}

/// The first `j` CNOT counts, for `j` below the top control's position,
/// sum to `2^(nq - 1) - 2^(nq - 1 - j)`.
proof fn lemma_counts_prefix(nq: i64, j: int)
    requires
        2 <= nq <= 62,
        0 <= j <= nq - 2,
    ensures
        prefix_sum(cnot_counts(nq), j) == pow2((nq - 1) as nat) - pow2((nq - 1 - j) as nat),
    decreases j,
{
    if j > 0 {
        lemma_counts_prefix(nq, j - 1);
        let e = nq - 2 - (j - 1);
        assert(e >= 1);
        lemma_pow2_fits(e as nat);
        vstd::arithmetic::power2::lemma_pow2_unfold((e + 1) as nat);
        assert(cnot_counts(nq)[j - 1] == pow2(e as nat));
    }
}

/// The controls' CNOT counts add up to the number of codes of the sweep,
/// `2^(nq - 1)`: every code relays exactly one control.
pub proof fn lemma_counts_sum(nq: i64)
    requires
        2 <= nq <= 62,
    ensures
        cnot_counts(nq).len() == nq - 1,
        prefix_sum(cnot_counts(nq), nq - 1) == pow2((nq - 1) as nat),
{
    lemma_counts_prefix(nq, nq - 2);
    lemma_pow2_fits(1);
    assert(pow2(1) == 2) by {
        vstd::arithmetic::power2::lemma2_to64();
    }
    assert(cnot_counts(nq)[nq - 2] == pow2(1));
}

proof fn lemma_prefix_sum_remove(b: Seq<i64>, k: int)
    requires
        0 <= k < b.len(),
    ensures
        prefix_sum(b, b.len() as int) == prefix_sum(b.remove(k), b.len() - 1) + b[k],
    decreases b.len(),
{
    let n = b.len() as int;
    if k == n - 1 {
        assert(b.remove(k) =~= b.drop_last());
        lemma_prefix_sum_prefix(b, b.drop_last(), n - 1);
    } else {
        let d = b.drop_last();
        lemma_prefix_sum_remove(d, k);
        lemma_prefix_sum_prefix(b, d, n - 1);
        let r = b.remove(k);
        assert(r.drop_last() =~= d.remove(k));
        lemma_prefix_sum_prefix(r, r.drop_last(), n - 2);
        assert(r[n - 2] == b[n - 1]);
    }
}

proof fn lemma_prefix_sum_prefix(a: Seq<i64>, b: Seq<i64>, j: int)
    requires
        0 <= j <= a.len(),
        j <= b.len(),
        forall|i: int| 0 <= i < j ==> a[i] == b[i],
    ensures
        prefix_sum(a, j) == prefix_sum(b, j),
    decreases j,
{
    if j > 0 {
        lemma_prefix_sum_prefix(a, b, j - 1);
    }
}

/// Reordering a sequence keeps its sum.
proof fn lemma_reordered_sum(a: Seq<i64>, b: Seq<i64>, p: Seq<int>)
    requires
        reorders_by(a, b, p),
    ensures
        prefix_sum(a, a.len() as int) == prefix_sum(b, b.len() as int),
    decreases a.len(),
{
    let n = a.len() as int;
    if n > 0 {
        let k = p[n - 1];
        let a2 = a.drop_last();
        let b2 = b.remove(k);
        let p2 = Seq::new((n - 1) as nat, |i: int| if p[i] < k { p[i] } else { p[i] - 1 });
        assert(reorders_by(a2, b2, p2)) by {
            assert forall|i: int| 0 <= i < p2.len() implies 0 <= #[trigger] p2[i] < b2.len() && a2[i] == b2[p2[i]] by {
                assert(p[i] != p[n - 1]);
            }
            assert forall|i: int, j: int| 0 <= i < j < p2.len() implies #[trigger] p2[i] != #[trigger] p2[j] by {
                assert(p[i] != p[j]);
                assert(p[i] != k && p[j] != k);
            }
        }
        lemma_reordered_sum(a2, b2, p2);
        lemma_prefix_sum_remove(b, k);
        lemma_prefix_sum_prefix(a, a2, n - 1);
    }
}

proof fn lemma_weighted_uniform(dl: Seq<(i64, i64)>, counts: Seq<i64>, n: int, d: i64)
    requires
        0 <= n <= dl.len(),
        n <= counts.len(),
        forall|k: int| 0 <= k < dl.len() ==> (#[trigger] dl[k]).1 == d,
    ensures
        weighted_cost(dl, counts, n) == relay_cost(d) * prefix_sum(counts, n),
    decreases n,
{
    if n > 0 {
        lemma_weighted_uniform(dl, counts, n - 1, d);
        assert(dl[n - 1].1 == d);
        let c = relay_cost(d);
        let x = counts[n - 1] as int;
        let s = prefix_sum(counts, n - 1);
        assert(c * s + x * c == c * (s + x)) by (nonlinear_arith);
    }
}

/// When every placed node lies at the same distance `d` from the root, the
/// Gray-code cost is the number of codes `2^(nq - 1)` times the cost of one
/// relayed CNOT over `d`, whatever order the CNOT counts are paired in.
pub proof fn lemma_uniform_distance_cost(nq: i64, dl: Seq<(i64, i64)>, counts: Seq<i64>, d: i64)
    requires
        2 <= nq <= 62,
        is_reordering(counts, cnot_counts(nq)),
        dl.len() >= nq - 1,
        forall|k: int| 0 <= k < dl.len() ==> (#[trigger] dl[k]).1 == d,
    ensures
        gray_code_cost(dl, counts) == pow2((nq - 1) as nat) * relay_cost(d),
{
    let p = choose|p: Seq<int>| #[trigger] reorders_by(counts, cnot_counts(nq), p);
    lemma_counts_sum(nq);
    lemma_reordered_sum(counts, cnot_counts(nq), p);
    assert(zip_len(dl, counts) == nq - 1);
    lemma_weighted_uniform(dl, counts, nq - 1, d);
    assert(relay_cost(d) * pow2((nq - 1) as nat) == pow2((nq - 1) as nat) * relay_cost(d)) by (nonlinear_arith);
}

} // verus!
