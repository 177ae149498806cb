//! Bootstrapping by blind rotation (AP14 / TFHE): the accumulator is rotated by
//! `X^b` and then, for each LWE coefficient `a_i`, by `X^-a_i` under the control of
//! the encrypted key bit `s_i`; sample extraction reads a fresh LWE sample off it.
pub mod key;
pub mod correctness;
pub mod lwe;

use vstd::prelude::*;
use rayon::iter::{IntoParallelRefIterator, ParallelIterator, IndexedParallelIterator};
use crate::arith::rem_euclid;
use crate::params::rgsw::{N, Q, L};
use crate::rgsw::{Poly, PolyMatrix, RgswPolyCiphertext, g_inverse, pm_ginv};
use crate::rgsw::poly::{PolyMat, pzero, pm_add, pm_product, product, coefs_within};
pub use key::{BootstrappingKey, generate_bootstrapping_key};

verus! {

/// The shift `a mod 2N` by which `X^a` rotates.
pub open spec fn shift_of(a: int) -> int {
    a % (2 * N as int)
}

/// Whether coefficient `i` is negated when multiplied by `X^a`: it passes `X^N`
/// an odd number of times.
pub open spec fn wraps_odd(i: int, a: int) -> bool {
    ((i + shift_of(a)) / (N as int)) % 2 == 1
}

/// The coefficients of `p * X^a` modulo `X^N + 1` and `q`: coefficient `i` moves to
/// `(i + shift) mod N` and is negated when it wraps an odd number of times.
pub open spec fn prot(p: Seq<i64>, a: int) -> Seq<i64> {
    Seq::new(
        N as nat,
        |t: int|
            {
                let i = (t - shift_of(a)) % (N as int);
                if wraps_odd(i, a) {
                    ((-(p[i] as int)) % (Q as int)) as i64
                } else {
                    ((p[i] as int) % (Q as int)) as i64
                }
            },
    )
}

/// Multiplying by `X^a` negates no coefficient equal to `i64::MIN`.
pub open spec fn rotatable(p: Seq<i64>, a: int) -> bool {
    forall|i: int| 0 <= i < N && wraps_odd(i, a) ==> #[trigger] p[i] > i64::MIN
}

/// Multiplies a polynomial by `X^a` in `Z_q[X]/(X^N + 1)`.
pub fn multiply_by_x_power(poly: &Poly, a: i64) -> (r: Poly)
    requires
        rotatable(poly.coefs@, a as int),
    ensures
        r.coefs@ == prot(poly.coefs@, a as int),
{
    let mut res = Poly::zero();
    let shift = rem_euclid(a, 2 * N as i64) as usize;
    let mut i: usize = 0;
    while i < N
        invariant
            i <= N,
            shift == shift_of(a as int),
            0 <= shift < 2 * N,
            rotatable(poly.coefs@, a as int),
            forall|t: int|
                0 <= t < N ==> #[trigger] res.coefs@[t] == if (t - shift) % (N as int) < i {
                    prot(poly.coefs@, a as int)[t]
                } else {
                    0
                },
        decreases N - i,
    {
        let wraps = (i + shift) / N;
        let mut val = poly.coefs[i];
        if wraps % 2 != 0 {
            val = rem_euclid(-val, Q);
        }
        let t = (i + shift) % N;
        proof {
            assert(((t as int) - shift) % (N as int) == i as int);
            assert(res.coefs@[t as int] == 0);
        }
        res.coefs[t] = rem_euclid(res.coefs[t] + val, Q);
        proof {
            if wraps % 2 != 0 {
                vstd::arithmetic::div_mod::lemma_mod_twice(-poly.coefs@[i as int] as int, Q as int);
            }
        }
        i += 1;
    }
    proof {
        assert forall|t: int| 0 <= t < N implies #[trigger] res.coefs@[t] == prot(poly.coefs@, a as int)[t] by {
            assert((t - shift) % (N as int) < N);
        }
    }
    assert(res.coefs@ =~= prot(poly.coefs@, a as int));
    res
}

/// The matrix as `acc_multiply_by_x_power` forms it: a `rows x cols` matrix
/// whose first entries are the stored entries times `X^a`, the rest zero.
pub open spec fn pm_rotate(m: PolyMat, a: int) -> PolyMat {
    PolyMat {
        rows: m.rows,
        cols: m.cols,
        data: Seq::new(
            m.rows * m.cols,
            |i: int| if i < m.data.len() { prot(m.data[i], a) } else { pzero() },
        ),
    }
}

/// Every entry that `acc_multiply_by_x_power` rotates can be rotated.
pub open spec fn pm_rotatable(m: PolyMat, a: int) -> bool {
    forall|i: int| 0 <= i < m.data.len() && i < m.rows * m.cols ==> rotatable(#[trigger] m.data[i], a)
}

/// The first `n` polynomials times `X^a`, computed in parallel with `rayon`:
/// `par_iter` over the slice, `map` with `multiply_by_x_power`, and `collect`,
/// which keeps the order of an indexed parallel iterator.
#[verifier::external_body]
fn par_rotate(polys: &Vec<Poly>, n: usize, a: i64) -> (r: Vec<Poly>)
    requires
        n <= polys@.len(),
        forall|i: int| 0 <= i < n ==> rotatable((#[trigger] polys@[i]).coefs@, a as int),
    ensures
        r@.len() == n,
        forall|i: int| 0 <= i < n ==> (#[trigger] r@[i]).coefs@ == prot(polys@[i].coefs@, a as int),
{
    polys[..n].par_iter().map(|p| multiply_by_x_power(p, a)).collect()
}

/// Multiplies every entry of a polynomial matrix by `X^a`, in parallel.
pub fn acc_multiply_by_x_power(acc: &PolyMatrix, a: i64) -> (r: PolyMatrix)
    requires
        acc.rows * acc.cols <= usize::MAX,
        pm_rotatable(acc@, a as int),
    ensures
        r@ == pm_rotate(acc@, a as int),
        r@.wf(),
{
    let total = acc.rows * acc.cols;
    let n = if acc.data.len() < total { acc.data.len() } else { total };
    proof {
        assert forall|i: int| 0 <= i < n implies rotatable((#[trigger] acc.data@[i]).coefs@, a as int) by {
            assert(acc@.data[i] == acc.data@[i].coefs@);
        }
    }
    let mut data = par_rotate(&acc.data, n, a);
    while data.len() < total
        invariant
            n <= data@.len() <= total,
            total == acc.rows * acc.cols,
            n == if acc.data@.len() < total { acc.data@.len() } else { total as nat },
            forall|i: int| 0 <= i < n ==> (#[trigger] data@[i]).coefs@ == prot(acc.data@[i].coefs@, a as int),
            forall|i: int| n <= i < data@.len() ==> (#[trigger] data@[i]).coefs@ == pzero(),
        decreases total - data@.len(),
    {
        data.push(Poly::zero());
    }
    let r = PolyMatrix { rows: acc.rows, cols: acc.cols, data };
    assert(r@.data =~= pm_rotate(acc@, a as int).data);
    r
}

/// Coefficients of `p - q mod q`.
pub open spec fn pdiff(p: Seq<i64>, q: Seq<i64>) -> Seq<i64> {
    Seq::new(N as nat, |k: int| (((p[k] as int) - (q[k] as int)) % (Q as int)) as i64)
}

/// The entrywise difference `x - y mod q`, in the shape of `y`.
pub open spec fn pm_diff(x: PolyMat, y: PolyMat) -> PolyMat {
    PolyMat {
        rows: y.rows,
        cols: y.cols,
        data: Seq::new(y.rows * y.cols, |i: int| pdiff(x.data[i], y.data[i])),
    }
}

/// `p - q mod q`, coefficientwise.
fn poly_diff(p: &Poly, q: &Poly) -> (r: Poly)
    requires
        coefs_within(p.coefs@, 0, Q - 1),
        coefs_within(q.coefs@, 0, Q - 1),
    ensures
        r.coefs@ == pdiff(p.coefs@, q.coefs@),
{
    let mut r = Poly::zero();
    let mut k: usize = 0;
    while k < N
        invariant
            k <= N,
            coefs_within(p.coefs@, 0, Q - 1),
            coefs_within(q.coefs@, 0, Q - 1),
            forall|j: int| 0 <= j < k ==> #[trigger] r.coefs@[j] == pdiff(p.coefs@, q.coefs@)[j],
        decreases N - k,
    {
        r.coefs[k] = rem_euclid(p.coefs[k] - q.coefs[k], Q);
        k += 1;
    }
    assert(r.coefs@ =~= pdiff(p.coefs@, q.coefs@));
    r
}

/// The entrywise differences of two lists of reduced polynomials, computed in
/// parallel with `rayon`: `par_iter` over both, `zip`, `map` with `poly_diff`,
/// and `collect`, which keeps the order of an indexed parallel iterator.
#[verifier::external_body]
fn par_diff(x: &Vec<Poly>, y: &Vec<Poly>) -> (r: Vec<Poly>)
    requires
        x@.len() == y@.len(),
        forall|i: int| 0 <= i < x@.len() ==> coefs_within((#[trigger] x@[i]).coefs@, 0, Q - 1),
        forall|i: int| 0 <= i < y@.len() ==> coefs_within((#[trigger] y@[i]).coefs@, 0, Q - 1),
    ensures
        r@.len() == x@.len(),
        forall|i: int|
            0 <= i < x@.len() ==> (#[trigger] r@[i]).coefs@ == pdiff(x@[i].coefs@, y@[i].coefs@),
{
    x.par_iter().zip(y.par_iter()).map(|(p, q)| poly_diff(p, q)).collect()
}

/// All entries stored and reduced.
pub open spec fn pm_reduced(m: PolyMat) -> bool {
    &&& m.wf()
    &&& forall|i: int| 0 <= i < m.data.len() ==> coefs_within(#[trigger] m.data[i], 0, Q - 1)
}

/// One controlled rotation: `ACC + BK_i G^-1(ACC X^-a_i - ACC)`.
pub open spec fn cmux_step(cur: PolyMat, bk: PolyMat, a_i: int) -> PolyMat {
    pm_add(cur, pm_product(bk, pm_ginv(pm_diff(pm_rotate(cur, -a_i), cur)), bk.cols))
}

/// The accumulator after the rotation by `X^b` and the controlled rotations for
/// the first `n` coefficients of `a` (a zero coefficient is skipped).
pub open spec fn blind_rotate_spec(acc: PolyMat, bks: Seq<PolyMat>, a: Seq<i64>, b: int, n: nat) -> PolyMat
    decreases n,
{
    if n == 0 {
        pm_rotate(acc, b)
    } else {
        let prev = blind_rotate_spec(acc, bks, a, b, (n - 1) as nat);
        if a[n - 1] == 0 {
            prev
        } else {
            cmux_step(prev, bks[n - 1], a[n - 1] as int)
        }
    }
}

/// The key's ciphertext matrices.
pub open spec fn key_views(bk: BootstrappingKey) -> Seq<PolyMat> {
    bk.bk@.map_values(|c: crate::rgsw::RgswBitCiphertext| c.0@)
}

/// The key ciphertext for a non-zero coefficient can drive a controlled rotation of
/// an `rows x cols` accumulator.
pub open spec fn key_fits(k: PolyMat, rows: nat, cols: nat) -> bool {
    &&& k.covers()
    &&& k.cols <= 2 * L
    &&& k.rows * (2 * L) <= usize::MAX
    &&& rows * cols <= k.rows * (2 * L)
}

/// Blind rotation can run on these inputs without a panic or an overflow.
pub open spec fn blind_rotatable(acc: PolyMat, bks: Seq<PolyMat>, a: Seq<i64>, b: int) -> bool {
    &&& acc.rows * acc.cols <= usize::MAX
    &&& pm_rotatable(acc, b)
    &&& forall|i: int|
        0 <= i < a.len() && #[trigger] a[i] != 0 ==> {
            &&& i < bks.len()
            &&& a[i] > i64::MIN
            &&& acc.cols + 2 * L - 1 < acc.rows * acc.cols
            &&& key_fits(bks[i], acc.rows, acc.cols)
        }
}

/// Blind rotation: rotates the accumulator by `X^b`, then for each non-zero `a_i`
/// replaces it by `ACC + BK_i G^-1(ACC X^-a_i - ACC)`, which rotates it by `X^-a_i`
/// when the key bit encrypted in `BK_i` is `1` and leaves it when it is `0`.
pub fn blind_rotate(acc: &RgswPolyCiphertext, bk: &BootstrappingKey, a: &[i64], b: i64) -> (r:
    RgswPolyCiphertext)
    requires
        blind_rotatable(acc.0@, key_views(*bk), a@, b as int),
    ensures
        r.0@ == blind_rotate_spec(acc.0@, key_views(*bk), a@, b as int, a@.len()),
        pm_reduced(r.0@),
        r.0.rows == acc.0.rows,
        r.0.cols == acc.0.cols,
{
    let ghost bks = key_views(*bk);
    let mut current = acc_multiply_by_x_power(&acc.0, b);
    proof {
        assert forall|i: int| 0 <= i < current@.data.len() implies coefs_within(
            #[trigger] current@.data[i],
            0,
            Q - 1,
        ) by {
            lemma_rotate_reduced(acc.0@, b as int, i);
        }
    }
    let mut i: usize = 0;
    while i < a.len()
        invariant
            i <= a@.len(),
            bks == key_views(*bk),
            blind_rotatable(acc.0@, bks, a@, b as int),
            current@ == blind_rotate_spec(acc.0@, bks, a@, b as int, i as nat),
            pm_reduced(current@),
            current.rows == acc.0.rows,
            current.cols == acc.0.cols,
        decreases a@.len() - i,
    {
        let a_i = a[i];
        if a_i != 0 {
            proof {
                assert(a@[i as int] != 0);
                assert(bks[i as int] == bk.bk@[i as int].0@);
            }
            let bk_i = &bk.bk[i];
            let rotated = acc_multiply_by_x_power(&current, -a_i);
            proof {
                assert forall|k: int| 0 <= k < rotated.data@.len() implies coefs_within(
                    (#[trigger] rotated.data@[k]).coefs@,
                    0,
                    Q - 1,
                ) by {
                    assert(rotated@.data[k] == rotated.data@[k].coefs@);
                    lemma_rotate_reduced(current@, -a_i as int, k);
                }
                assert forall|k: int| 0 <= k < current.data@.len() implies coefs_within(
                    (#[trigger] current.data@[k]).coefs@,
                    0,
                    Q - 1,
                ) by {
                    assert(current@.data[k] == current.data@[k].coefs@);
                }
            }
            let diff_data = par_diff(&rotated.data, &current.data);
            let diff = PolyMatrix { rows: current.rows, cols: current.cols, data: diff_data };
            proof {
                assert(diff@.data =~= pm_diff(rotated@, current@).data);
            }
            let z2 = g_inverse(&diff);
            let selector = product(&bk_i.0, &z2, bk_i.0.cols);
            proof {
                assert forall|x: int, k: int|
                    0 <= x < current.data@.len() && 0 <= k < N implies i64::MIN
                    <= #[trigger] current.data@[x].coefs@[k] + selector.data@[x].coefs@[k]
                    <= i64::MAX by {
                    assert(current@.data[x] == current.data@[x].coefs@);
                    assert(selector@.data[x] == selector.data@[x].coefs@);
                    crate::rgsw::poly::lemma_rm_flat(x, bk_i.0.rows as int, 2 * L as int);
                    crate::rgsw::poly::lemma_pm_dot_reduced(
                        bk_i.0@,
                        z2@,
                        x / (2 * L as int),
                        x % (2 * L as int),
                        bk_i.0.cols as nat,
                    );
                }
            }
            current = current.add(&selector);
            proof {
                assert forall|x: int| 0 <= x < current@.data.len() implies coefs_within(
                    #[trigger] current@.data[x],
                    0,
                    Q - 1,
                ) by {}
            }
        }
        i += 1;
    }
    RgswPolyCiphertext(current)
}

/// The rotated entries are reduced.
proof fn lemma_rotate_reduced(m: PolyMat, a: int, i: int)
    requires
        0 <= i < m.rows * m.cols,
    ensures
        coefs_within(pm_rotate(m, a).data[i], 0, Q - 1),
{
}

/// Sample extraction: the coefficients of entry `(0, L)` as the LWE vector `a`, and
/// the constant coefficient of entry `(1, L)` as `b`.
pub fn sample_extract(acc: &RgswPolyCiphertext) -> (out: (Vec<i64>, i64))
    requires
        acc.0.cols + L < acc.0.data@.len(),
    ensures
        out.0@ == acc.0.data@[L as int].coefs@,
        out.1 == acc.0.data@[acc.0.cols + L].coefs@[0],
{
    let poly = acc.0.get(0, L);
    let mut extracted_a: Vec<i64> = Vec::new();
    let mut i: usize = 0;
    while i < N
        invariant
            i <= N,
            extracted_a@ == poly.coefs@.subrange(0, i as int),
        decreases N - i,
    {
        extracted_a.push(poly.coefs[i]);
        i += 1;
    }
    assert(extracted_a@ =~= poly.coefs@);
    let b = acc.0.get(1, L).coefs[0];
    (extracted_a, b)
}

/// Bootstrapping: blind rotation followed by sample extraction.
pub fn bootstrap(
    acc_init: &RgswPolyCiphertext,
    bk: &BootstrappingKey,
    lwe_ciphertext_a: &[i64],
    lwe_ciphertext_b: i64,
) -> (out: (Vec<i64>, i64))
    requires
        blind_rotatable(acc_init.0@, key_views(*bk), lwe_ciphertext_a@, lwe_ciphertext_b as int),
        acc_init.0.cols + L < acc_init.0.rows * acc_init.0.cols,
    ensures
        ({
            let r = blind_rotate_spec(
                acc_init.0@,
                key_views(*bk),
                lwe_ciphertext_a@,
                lwe_ciphertext_b as int,
                lwe_ciphertext_a@.len(),
            );
            out.0@ == r.data[L as int] && out.1 == r.data[r.cols + L][0]
        }),
{
    let r = blind_rotate(acc_init, bk, lwe_ciphertext_a, lwe_ciphertext_b);
    proof {
        assert(r.0@.data[L as int] == r.0.data@[L as int].coefs@);
        assert(r.0@.data[r.0.cols + L] == r.0.data@[r.0.cols + L].coefs@);
    }
    sample_extract(&r)
}

/// Rotations compose: multiplying by `X^a` and then by `X^b` is multiplying by
/// `X^(a + b)`.
pub proof fn rotation_composes(p: Seq<i64>, a: int, b: int)
    requires
        p.len() == N,
    ensures
        prot(prot(p, a), b) == prot(p, a + b),
{
    let q = Q as int;
    assert forall|t: int| 0 <= t < N implies #[trigger] prot(prot(p, a), b)[t] == prot(p, a + b)[t] by {
        let i = (t - shift_of(b)) % (N as int);
        let i2 = (i - shift_of(a)) % (N as int);
        lemma_shifts_compose(t, a, b);
        let x = p[i2] as int;
        if wraps_odd(i2, a) {
            lemma_mod_neg_twice(x, q);
        }
        vstd::arithmetic::div_mod::lemma_mod_twice(x, q);
        vstd::arithmetic::div_mod::lemma_mod_twice(-x, q);
    }
    assert(prot(prot(p, a), b) =~= prot(p, a + b));
}

/// Where coefficient `t` of `p * X^a * X^b` comes from, and how often it wrapped.
proof fn lemma_shifts_compose(t: int, a: int, b: int)
    requires
        0 <= t < N,
    ensures
        ({
            let i = (t - shift_of(b)) % (N as int);
            let i2 = (i - shift_of(a)) % (N as int);
            &&& i2 == (t - shift_of(a + b)) % (N as int)
            &&& wraps_odd(i2, a + b) == (wraps_odd(i2, a) != wraps_odd(i, b))
        }),
{
    let n = N as int;
    let sa = a % (2 * n);
    let sb = b % (2 * n);
    let sab = (a + b) % (2 * n);
    let i = (t - sb) % n;
    let i2 = (i - sa) % n;
    let k = (i + sb) / n;
    let k2 = (i2 + sa) / n;
    assert(i + sb == t + n * k);
    assert(i2 + sa == i + n * k2);
    let qa = a / (2 * n);
    let qb = b / (2 * n);
    let qab = (a + b) / (2 * n);
    assert(a == 2 * n * qa + sa);
    assert(b == 2 * n * qb + sb);
    assert(a + b == 2 * n * qab + sab);
    let d = qab - qa - qb;
    assert(sa + sb - sab == 2 * n * d);
    assert(sa + sb == sab || sa + sb == sab + 2 * n);
    let k3 = if sa + sb == sab { k + k2 } else { k + k2 - 2 };
    assert(i2 + sab == t + n * k3);
    assert(i2 == (t - sab) % n);
    assert((i2 + sab) / n == k3);
}

/// `-((-x) mod q) mod q = x mod q`.
proof fn lemma_mod_neg_twice(x: int, q: int)
    requires
        q > 0,
    ensures
        (-((-x) % q)) % q == x % q,
{
    vstd::arithmetic::div_mod::lemma_sub_mod_noop(0, -x, q);
    vstd::arithmetic::div_mod::lemma_mod_twice(-x, q);
}

} // verus!
