//! The GSW scheme over LWE: keys, encryption of bits and small integers, decryption,
//! and homomorphic addition and multiplication.
pub mod gadget;
pub mod correctness;
pub mod equality;

use vstd::prelude::*;
use rand::rngs::ThreadRng;
use crate::arith::{abs, rem_euclid, sum, lemma_sum_bound, lemma_sum_le, lemma_sum_ext, lemma_sum_abs};
use crate::matrix::{Matrix, dot, abs_dot, mat_mul, mat_add, mat_transpose, mat_scale, reduce_mod};
use crate::params::gsw::{N_LWE, Q, L, N_COLS, M, INT_SCALE_SHIFT};
use crate::rng::gen_range;
use crate::FheError;
use gadget::{gadget_matrix, g_inverse, gadget_entry, ginv_entry};

verus! {

/// A GSW encryption of a bit: an `(n + 1) x N_COLS` matrix.
#[derive(Clone, Debug)]
pub struct BitCiphertext(pub Matrix);

/// A GSW encryption of a small integer.
#[derive(Clone, Debug)]
pub struct IntCiphertext(pub Matrix);

/// `q / 2`, the decryption threshold of a bit.
pub open spec fn half_q() -> int {
    Q as int / 2
}

/// The bit that a phase `x` in `[0, q)` decodes to: `0` when `x` is nearer to `0`
/// (modulo `q`) than to `q / 2`, `1` otherwise.
pub open spec fn decode_bit(x: int) -> int {
    let d = if x < Q - x { x } else { Q - x };
    if d < abs(x - half_q()) { 0 } else { 1 }
}

/// Rounding of `x / d` to the nearest integer, halves away from zero.
pub open spec fn round_div(x: int, d: int) -> int {
    if x >= 0 { (x + d / 2) / d } else { -((-x + d / 2) / d) }
}

/// The integer that a phase `x` in `[0, q)` decodes to: `x` centred into
/// `(-q/2, q/2]`, divided by `2^INT_SCALE_SHIFT` and rounded.
pub open spec fn decode_int(x: int) -> int {
    let centered = if x > half_q() { x - Q } else { x };
    round_div(centered, 16384)
}

/// The secret-key part of a key pair: `v = (-s mod q, 1)` for a binary `s`.
pub open spec fn is_gsw_secret(v: Matrix, s: Seq<int>) -> bool {
    &&& v.wf()
    &&& v.rows == N_LWE + 1
    &&& v.cols == 1
    &&& s.len() == N_LWE
    &&& forall|i: int| 0 <= i < N_LWE ==> #[trigger] s[i] == 0 || s[i] == 1
    &&& forall|i: int| 0 <= i < N_LWE ==> #[trigger] v.at(i, 0) == (-s[i]) % (Q as int)
    &&& v.at(N_LWE as int, 0) == 1
}

/// `sum_k s[k] * a[k][j]` over the first `N_LWE` rows.
pub open spec fn lwe_dot(s: Seq<int>, a: Matrix, j: int) -> int {
    sum(|k: int| s[k] * a.at(k, j), N_LWE as nat)
}

/// The public-key part of a key pair: `a = [B; s B + e mod q]` with `B` uniform in
/// `[0, q)` and noise `e` in `{-1, 0, 1}`.
pub open spec fn lwe_relation(a: Matrix, s: Seq<int>, e: Seq<int>) -> bool {
    &&& a.wf()
    &&& a.rows == N_LWE + 1
    &&& a.cols == M
    &&& e.len() == M
    &&& forall|i: int, j: int| 0 <= i < N_LWE && 0 <= j < M ==> 0 <= #[trigger] a.at(i, j) < Q
    &&& forall|j: int| 0 <= j < M ==> -1 <= #[trigger] e[j] <= 1
    &&& forall|j: int|
        0 <= j < M ==> #[trigger] a.at(N_LWE as int, j) == (lwe_dot(s, a, j) + e[j]) % (Q as int)
}

/// `(v, a)` is a key pair: for some binary `s` and noise `e`, `v` is the secret
/// vector of `s` and `a` the public matrix of `s` and `e`.
pub open spec fn is_gsw_keypair(v: Matrix, a: Matrix) -> bool {
    exists|s: Seq<int>, e: Seq<int>| is_gsw_secret(v, s) && #[trigger] lwe_relation(a, s, e)
}

/// `c = A R + m G mod q`, entry by entry, for the `M x N_COLS` matrix `r`.
pub open spec fn enc_relation(a: Matrix, r: Matrix, m: int, c: Matrix) -> bool {
    &&& r.wf()
    &&& r.rows == M
    &&& r.cols == N_COLS
    &&& c.wf()
    &&& c.rows == a.rows
    &&& c.cols == N_COLS
    &&& forall|i: int, j: int|
        0 <= i < a.rows && 0 <= j < N_COLS ==> #[trigger] c.at(i, j) == (dot(a, r, i, j, M as nat)
            + m * gadget_entry(i, j)) % (Q as int)
}

/// `c` encrypts `m` under `a`: `c = A R + m G mod q` for some binary `R`.
pub open spec fn is_gsw_encryption(a: Matrix, m: int, c: Matrix) -> bool {
    exists|r: Matrix| r.within(0, 1) && #[trigger] enc_relation(a, r, m, c)
}

/// The public key has the shape `(n + 1) x M`.
pub open spec fn is_public_key_shape(a: Matrix) -> bool {
    a.wf() && a.rows == N_LWE + 1 && a.cols == M
}

/// `sum_k |a[i][k]|` for row `i`.
pub open spec fn row_abs_sum(a: Matrix, i: int) -> int {
    sum(|k: int| abs(a.at(i, k)), a.cols as nat)
}

/// Encrypting `m` under `a` stays in the range of `i64` whatever the binary
/// randomness: every row of `a` has `sum_k |a[i][k]| + |m| 2^(L-1) <= i64::MAX`.
pub open spec fn enc_fits(a: Matrix, m: int) -> bool {
    forall|i: int| 0 <= i < a.rows ==> #[trigger] row_abs_sum(a, i) + abs(m) * 8388608 <= i64::MAX
}

/// `sum_k v[k][0] * c[k][j]`, the phase of column `j` of `c` under `v`.
pub open spec fn phase(v: Matrix, c: Matrix, j: int) -> int {
    sum(|k: int| v.at(k, 0) * c.at(k, j), v.rows as nat)
}

/// `sum_k |v[k][i] c[k][j]|`, the magnitude bound of entry `(i, j)` of `v^T c`.
pub open spec fn tabs_dot(v: Matrix, c: Matrix, i: int, j: int) -> int {
    sum(|k: int| abs(v.at(k, i) * c.at(k, j)), v.rows as nat)
}

/// Computing `v^T c` stays in the range of `i64`.
pub open spec fn tmul_fits(v: Matrix, c: Matrix) -> bool {
    forall|i: int, j: int|
        0 <= i < v.cols && 0 <= j < c.cols ==> #[trigger] tabs_dot(v, c, i, j) <= i64::MAX
}

/// What decryption under `v` returns for the ciphertext matrix `c`.
pub open spec fn gsw_decrypt_spec(v: Matrix, c: Matrix) -> int {
    decode_bit(phase(v, c, N_COLS - 1) % (Q as int))
}

/// What integer decryption under `v` returns for the ciphertext matrix `c`.
pub open spec fn gsw_decrypt_integer_spec(v: Matrix, c: Matrix) -> int {
    decode_int(phase(v, c, (N_LWE * L + INT_SCALE_SHIFT) as int) % (Q as int))
}

/// The ciphertext matrix can be decrypted under `v` without overflow.
pub open spec fn decryptable(v: Matrix, c: Matrix) -> bool {
    &&& v.wf()
    &&& c.wf()
    &&& v.rows == c.rows
    &&& v.cols >= 1
    &&& c.cols >= N_COLS
    &&& tmul_fits(v, c)
}

/// `sum_k |c1[i][k] G^-1(c2)[k][j]|`, the magnitude bound of entry `(i, j)` of
/// `c1 G^-1(c2)`.
pub open spec fn ginv_abs_dot(c1: Matrix, c2: Matrix, i: int, j: int) -> int {
    sum(|k: int| abs(c1.at(i, k) * ginv_entry(c2, k, j)), N_COLS as nat)
}

/// The product `c1 * G^-1(c2)` stays in the range of `i64`.
pub open spec fn ginv_mul_fits(c1: Matrix, c2: Matrix) -> bool {
    forall|i: int, j: int|
        0 <= i < c1.rows && 0 <= j < N_COLS ==> #[trigger] ginv_abs_dot(c1, c2, i, j) <= i64::MAX
}

/// Entry `(i, j)` of `c1 * G^-1(c2) mod q`.
pub open spec fn hmul_entry(c1: Matrix, c2: Matrix, i: int, j: int) -> int {
    sum(|k: int| c1.at(i, k) * ginv_entry(c2, k, j), N_COLS as nat) % (Q as int)
}

/// Builds the key pair from its random parts: the binary secret `s` (`n x 1`),
/// the uniform matrix `b_mat` (`n x M`) and the noise `e` (`1 x M`). The secret
/// vector is `v = (-s mod q, 1)` and the public matrix `a = [B; s^T B + e mod q]`.
pub fn keygen_from(s: &Matrix, b_mat: &Matrix, e: &Matrix) -> (keys: (Matrix, Matrix))
    requires
        s.wf(),
        s.rows == N_LWE,
        s.cols == 1,
        s.within(0, 1),
        b_mat.wf(),
        b_mat.rows == N_LWE,
        b_mat.cols == M,
        b_mat.within(0, Q - 1),
        e.wf(),
        e.rows == 1,
        e.cols == M,
        e.within(-1, 1),
    ensures
        keys.0.wf(),
        keys.0.rows == N_LWE + 1,
        keys.0.cols == 1,
        forall|i: int| 0 <= i < N_LWE ==> #[trigger] keys.0.at(i, 0) == (-s.at(i, 0)) % (Q as int),
        keys.0.at(N_LWE as int, 0) == 1,
        keys.1.wf(),
        keys.1.rows == N_LWE + 1,
        keys.1.cols == M,
        forall|i: int, j: int|
            0 <= i < N_LWE && 0 <= j < M ==> #[trigger] keys.1.at(i, j) == b_mat.at(i, j),
        forall|j: int|
            0 <= j < M ==> #[trigger] keys.1.at(N_LWE as int, j) == (sum(
                |k: int| s.at(k, 0) * b_mat.at(k, j),
                N_LWE as nat,
            ) + e.at(0, j)) % (Q as int),
        is_gsw_keypair(keys.0, keys.1),
{
    let mut v = Matrix::zeros(N_LWE + 1, 1);
    let mut i: usize = 0;
    while i < N_LWE
        invariant
            i <= N_LWE,
            s.wf(),
            s.rows == N_LWE,
            s.cols == 1,
            s.within(0, 1),
            v.wf(),
            v.rows == N_LWE + 1,
            v.cols == 1,
            forall|k: int| 0 <= k < i ==> #[trigger] v.at(k, 0) == (-s.at(k, 0)) % (Q as int),
        decreases N_LWE - i,
    {
        let x = s.get(i, 0);
        v.set(i, 0, rem_euclid(-x, Q));
        i += 1;
    }
    v.set(N_LWE, 0, 1);
    let st = mat_transpose(s);
    proof {
        assert forall|a: int, j: int| 0 <= a < st.rows && 0 <= j < b_mat.cols implies #[trigger] abs_dot(
            st,
            *b_mat,
            a,
            j,
            st.cols as nat,
        ) <= i64::MAX by {
            let f = |k: int| abs(st.at(a, k) * b_mat.at(k, j));
            assert forall|k: int| 0 <= k < N_LWE implies abs(#[trigger] f(k)) <= Q by {
                let x = st.at(a, k);
                let y = b_mat.at(k, j);
                assert(x == s.at(k, 0));
                assert(0 <= x * y <= Q) by (nonlinear_arith)
                    requires
                        0 <= x <= 1,
                        0 <= y < Q,
                ;
            }
            lemma_sum_bound(f, N_LWE as nat, Q as int);
        }
    }
    let sb = mat_mul(&st, b_mat);
    proof {
        assert forall|a: int, j: int| 0 <= a < sb.rows && 0 <= j < sb.cols implies i64::MIN <= #[trigger] sb.at(
            a,
            j,
        ) + e.at(a, j) <= i64::MAX by {
            let f = |k: int| st.at(a, k) * b_mat.at(k, j);
            assert forall|k: int| 0 <= k < N_LWE implies abs(#[trigger] f(k)) <= Q by {
                let x = st.at(a, k);
                let y = b_mat.at(k, j);
                assert(x == s.at(k, 0));
                assert(0 <= x * y <= Q) by (nonlinear_arith)
                    requires
                        0 <= x <= 1,
                        0 <= y < Q,
                ;
            }
            lemma_sum_bound(f, N_LWE as nat, Q as int);
        }
    }
    let sbe = mat_add(&sb, e);
    let b = reduce_mod(&sbe, Q);
    let mut a = Matrix::zeros(N_LWE + 1, M);
    let mut i: usize = 0;
    while i < N_LWE
        invariant
            i <= N_LWE,
            b_mat.wf(),
            b_mat.rows == N_LWE,
            b_mat.cols == M,
            a.wf(),
            a.rows == N_LWE + 1,
            a.cols == M,
            forall|r: int, c: int|
                0 <= r < N_LWE + 1 && 0 <= c < M ==> #[trigger] a.at(r, c) == if r < i {
                    b_mat.at(r, c)
                } else {
                    0
                },
        decreases N_LWE - i,
    {
        let mut j: usize = 0;
        while j < M
            invariant
                i < N_LWE,
                j <= M,
                b_mat.wf(),
                b_mat.rows == N_LWE,
                b_mat.cols == M,
                a.wf(),
                a.rows == N_LWE + 1,
                a.cols == M,
                forall|r: int, c: int|
                    0 <= r < N_LWE + 1 && 0 <= c < M ==> #[trigger] a.at(r, c) == if r < i || (r
                        == i && c < j) {
                        b_mat.at(r, c)
                    } else {
                        0
                    },
            decreases M - j,
        {
            let x = b_mat.get(i, j);
            a.set(i, j, x);
            j += 1;
        }
        i += 1;
    }
    let mut j: usize = 0;
    while j < M
        invariant
            j <= M,
            b.wf(),
            b.rows == 1,
            b.cols == M,
            a.wf(),
            a.rows == N_LWE + 1,
            a.cols == M,
            forall|r: int, c: int|
                0 <= r < N_LWE && 0 <= c < M ==> #[trigger] a.at(r, c) == b_mat.at(r, c),
            forall|c: int| 0 <= c < j ==> #[trigger] a.at(N_LWE as int, c) == b.at(0, c),
        decreases M - j,
    {
        let x = b.get(0, j);
        a.set(N_LWE, j, x);
        j += 1;
    }
    proof {
        assert forall|j: int| 0 <= j < M implies #[trigger] a.at(N_LWE as int, j) == (sum(
            |k: int| s.at(k, 0) * b_mat.at(k, j),
            N_LWE as nat,
        ) + e.at(0, j)) % (Q as int) by {
            lemma_sum_ext(
                |k: int| st.at(0, k) * b_mat.at(k, j),
                |k: int| s.at(k, 0) * b_mat.at(k, j),
                N_LWE as nat,
            );
        }
        let ss = Seq::new(N_LWE as nat, |k: int| s.at(k, 0));
        let es = Seq::new(M as nat, |j: int| e.at(0, j));
        assert forall|j: int| 0 <= j < M implies #[trigger] a.at(N_LWE as int, j) == (lwe_dot(ss, a, j)
            + es[j]) % (Q as int) by {
            lemma_sum_ext(
                |k: int| s.at(k, 0) * b_mat.at(k, j),
                |k: int| ss[k] * a.at(k, j),
                N_LWE as nat,
            );
        }
        assert(is_gsw_secret(v, ss));
        assert(lwe_relation(a, ss, es));
    }
    (v, a)
}

/// Generates a key pair: a binary secret `s`, a uniform `n x M` matrix `B` modulo
/// `q` and noise `e` in `{-1, 0, 1}`; returns `v = (-s mod q, 1)` and
/// `a = [B; s^T B + e mod q]`.
pub fn keygen(rng: &mut ThreadRng) -> (keys: (Matrix, Matrix))
    ensures
        is_gsw_keypair(keys.0, keys.1),
{
    let mut s = Matrix::zeros(N_LWE, 1);
    let mut i: usize = 0;
    while i < N_LWE
        invariant
            i <= N_LWE,
            s.wf(),
            s.rows == N_LWE,
            s.cols == 1,
            forall|r: int, c: int| 0 <= r < N_LWE && 0 <= c < 1 ==> 0 <= #[trigger] s.at(r, c) <= 1,
        decreases N_LWE - i,
    {
        let x = gen_range(rng, 0, 1);
        s.set(i, 0, x);
        i += 1;
    }
    let mut b_mat = Matrix::zeros(N_LWE, M);
    let mut j: usize = 0;
    while j < M
        invariant
            j <= M,
            b_mat.wf(),
            b_mat.rows == N_LWE,
            b_mat.cols == M,
            b_mat.within(0, Q - 1),
        decreases M - j,
    {
        let mut i: usize = 0;
        while i < N_LWE
            invariant
                i <= N_LWE,
                j < M,
                b_mat.wf(),
                b_mat.rows == N_LWE,
                b_mat.cols == M,
                b_mat.within(0, Q - 1),
            decreases N_LWE - i,
        {
            let x = gen_range(rng, 0, Q - 1);
            b_mat.set(i, j, x);
            i += 1;
        }
        j += 1;
    }
    let mut e = Matrix::zeros(1, M);
    let mut j: usize = 0;
    while j < M
        invariant
            j <= M,
            e.wf(),
            e.rows == 1,
            e.cols == M,
            e.within(-1, 1),
        decreases M - j,
    {
        let x = gen_range(rng, -1, 1);
        e.set(0, j, x);
        j += 1;
    }
    keygen_from(&s, &b_mat, &e)
}

/// Encrypts `m` with the given binary randomness `r` (`M x N_COLS`):
/// `C = A R + m G mod q`.
pub fn encrypt_with_randomness(a: &Matrix, r: &Matrix, m: i64) -> (c: Matrix)
    requires
        is_public_key_shape(*a),
        enc_fits(*a, m as int),
        r.wf(),
        r.rows == M,
        r.cols == N_COLS,
        r.within(0, 1),
    ensures
        enc_relation(*a, *r, m as int, c),
        c.within(0, Q - 1),
        is_gsw_encryption(*a, m as int, c),
{
    proof {
        assert forall|i: int, j: int| 0 <= i < a.rows && 0 <= j < r.cols implies #[trigger] abs_dot(
            *a,
            *r,
            i,
            j,
            a.cols as nat,
        ) <= row_abs_sum(*a, i) by {
            lemma_abs_dot_binary(*a, *r, i, j);
        }
    }
    let ar = mat_mul(a, r);
    let g = gadget_matrix();
    proof {
        assert forall|i: int, j: int| 0 <= i < g.rows && 0 <= j < g.cols implies i64::MIN <= m
            * #[trigger] g.at(i, j) <= i64::MAX by {
            lemma_gadget_bound(i, j);
            assert(row_abs_sum(*a, i) >= 0) by {
                crate::arith::lemma_sum_nonneg(|k: int| abs(a.at(i, k)), a.cols as nat);
            }
            let x = g.at(i, j);
            assert(abs(m * x) <= abs(m as int) * 8388608) by (nonlinear_arith)
                requires
                    0 <= x <= 8388608,
            ;
        }
    }
    let mg = mat_scale(m, &g);
    proof {
        assert forall|i: int, j: int| 0 <= i < ar.rows && 0 <= j < ar.cols implies i64::MIN <= #[trigger] ar.at(
            i,
            j,
        ) + mg.at(i, j) <= i64::MAX by {
            lemma_abs_dot_binary(*a, *r, i, j);
            let f = |k: int| a.at(i, k) * r.at(k, j);
            lemma_sum_abs(f, M as nat);
            lemma_sum_ext(|k: int| abs(f(k)), |k: int| abs(a.at(i, k) * r.at(k, j)), M as nat);
            assert(abs(ar.at(i, j)) <= row_abs_sum(*a, i));
            assert(row_abs_sum(*a, i) + abs(m as int) * 8388608 <= i64::MAX);
            lemma_gadget_bound(i, j);
            let x = g.at(i, j);
            assert(abs(m * x) <= abs(m as int) * 8388608) by (nonlinear_arith)
                requires
                    0 <= x <= 8388608,
            ;
        }
    }
    let sum_m = mat_add(&ar, &mg);
    let c = reduce_mod(&sum_m, Q);
    proof {
        assert(enc_relation(*a, *r, m as int, c));
    }
    c
}

/// `sum_k |a[i][k] r[k][j]| <= sum_k |a[i][k]|` for a binary `r`.
proof fn lemma_abs_dot_binary(a: Matrix, r: Matrix, i: int, j: int)
    requires
        r.rows == a.cols,
        0 <= j < r.cols,
        r.within(0, 1),
    ensures
        abs_dot(a, r, i, j, a.cols as nat) <= row_abs_sum(a, i),
{
    assert forall|k: int| 0 <= k < a.cols implies #[trigger] abs(a.at(i, k) * r.at(k, j)) <= abs(
        a.at(i, k),
    ) by {
        let x = a.at(i, k);
        let y = r.at(k, j);
        assert(abs(x * y) <= abs(x)) by (nonlinear_arith)
            requires
                0 <= y <= 1,
        ;
    }
    lemma_sum_le(|k: int| abs(a.at(i, k) * r.at(k, j)), |k: int| abs(a.at(i, k)), a.cols as nat);
}

/// Gadget entries lie in `[0, 2^(L-1)]`.
pub proof fn lemma_gadget_bound(i: int, j: int)
    ensures
        0 <= gadget_entry(i, j) <= 8388608,
{
    if L * i <= j < L * i + L {
        let k = (j - L * i) as nat;
        vstd::arithmetic::power2::lemma_pow2_pos(k);
        if k < 23 {
            vstd::arithmetic::power2::lemma_pow2_strictly_increases(k, 23);
        }
        vstd::arithmetic::power2::lemma2_to64();
    }
}

/// Draws an `M x N_COLS` binary matrix.
fn random_binary_matrix(rng: &mut ThreadRng) -> (r: Matrix)
    ensures
        r.wf(),
        r.rows == M,
        r.cols == N_COLS,
        r.within(0, 1),
{
    let mut r = Matrix::zeros(M, N_COLS);
    let mut j: usize = 0;
    while j < N_COLS
        invariant
            j <= N_COLS,
            r.wf(),
            r.rows == M,
            r.cols == N_COLS,
            r.within(0, 1),
        decreases N_COLS - j,
    {
        let mut i: usize = 0;
        while i < M
            invariant
                i <= M,
                j < N_COLS,
                r.wf(),
                r.rows == M,
                r.cols == N_COLS,
                r.within(0, 1),
            decreases M - i,
        {
            let x = gen_range(rng, 0, 1);
            r.set(i, j, x);
            i += 1;
        }
        j += 1;
    }
    r
}

/// Encrypts a bit: `C = A R + m G mod q` for a fresh random binary `R`. A message
/// other than `0` or `1` is refused before anything is drawn.
pub fn encrypt(a: &Matrix, m: i64, rng: &mut ThreadRng) -> (res: Result<BitCiphertext, FheError>)
    requires
        m == 0 || m == 1 ==> is_public_key_shape(*a) && enc_fits(*a, m as int),
    ensures
        match res {
            Ok(c) => (m == 0 || m == 1) && is_gsw_encryption(*a, m as int, c.0) && c.0.within(
                0,
                Q - 1,
            ),
            Err(e) => !(m == 0 || m == 1) && e == (FheError::InvalidMessage {
                value: m,
                expected: "0 or 1",
            }) && *final(rng) == *old(rng),
        },
{
    if m != 0 && m != 1 {
        return Err(FheError::InvalidMessage { value: m, expected: "0 or 1" });
    }
    let r = random_binary_matrix(rng);
    Ok(BitCiphertext(encrypt_with_randomness(a, &r, m)))
}

/// Encrypts a small integer `m` with `|m| < 2^INT_SCALE_SHIFT` as `A R + m G mod q`;
/// a larger `m` is refused before anything is drawn.
pub fn encrypt_integer(a: &Matrix, m: i64, rng: &mut ThreadRng) -> (res: Result<IntCiphertext, FheError>)
    requires
        m > i64::MIN,
        abs(m as int) < 16384 ==> is_public_key_shape(*a) && enc_fits(*a, m as int),
    ensures
        match res {
            Ok(c) => abs(m as int) < 16384 && is_gsw_encryption(*a, m as int, c.0) && c.0.within(
                0,
                Q - 1,
            ),
            Err(e) => abs(m as int) >= 16384 && e == (FheError::ValueOutOfRange {
                value: m,
                max_abs: 16384,
            }) && *final(rng) == *old(rng),
        },
{
    let max_val: i64 = 16384;
    let m_abs = if m < 0 { -m } else { m };
    if m_abs >= max_val {
        return Err(FheError::ValueOutOfRange { value: m, max_abs: max_val });
    }
    let r = random_binary_matrix(rng);
    Ok(IntCiphertext(encrypt_with_randomness(a, &r, m)))
}

/// The phase `v^T c` at column `col`, reduced modulo `q`.
fn phase_mod_q(v: &Matrix, c: &Matrix, col: usize) -> (x: i64)
    requires
        decryptable(*v, *c),
        col < c.cols,
    ensures
        x == phase(*v, *c, col as int) % (Q as int),
        0 <= x < Q,
{
    let vt = mat_transpose(v);
    proof {
        assert forall|i: int, j: int| 0 <= i < vt.rows && 0 <= j < c.cols implies #[trigger] abs_dot(
            vt,
            *c,
            i,
            j,
            vt.cols as nat,
        ) <= i64::MAX by {
            lemma_sum_ext(
                |k: int| abs(vt.at(i, k) * c.at(k, j)),
                |k: int| abs(v.at(k, i) * c.at(k, j)),
                v.rows as nat,
            );
            assert(tabs_dot(*v, *c, i, j) <= i64::MAX);
        }
    }
    let p = mat_mul(&vt, c);
    let x = p.get(0, col);
    proof {
        lemma_sum_ext(
            |k: int| vt.at(0, k) * c.at(k, col as int),
            |k: int| v.at(k, 0) * c.at(k, col as int),
            v.rows as nat,
        );
    }
    rem_euclid(x, Q)
}

/// Decrypts a bit: the last entry of `v^T C` modulo `q` decodes to `0` when it is
/// nearer to `0` than to `q / 2`, and to `1` otherwise.
pub fn decrypt(v: &Matrix, c: &BitCiphertext) -> (m: i64)
    requires
        decryptable(*v, c.0),
    ensures
        m == gsw_decrypt_spec(*v, c.0),
{
    let val = phase_mod_q(v, &c.0, N_COLS - 1);
    let d = if val < Q - val { val } else { Q - val };
    let dh = if val - Q / 2 < 0 { Q / 2 - val } else { val - Q / 2 };
    if d < dh { 0 } else { 1 }
}

/// Decrypts a small integer: the entry of `v^T C` at column
/// `n L + INT_SCALE_SHIFT`, centred into `(-q/2, q/2]`, divided by
/// `2^INT_SCALE_SHIFT` and rounded to the nearest integer (halves away from zero).
pub fn decrypt_integer(v: &Matrix, c: &IntCiphertext) -> (m: i64)
    requires
        decryptable(*v, c.0),
    ensures
        m == gsw_decrypt_integer_spec(*v, c.0),
{
    let val = phase_mod_q(v, &c.0, N_LWE * L + INT_SCALE_SHIFT);
    let centered = if val > Q / 2 { val - Q } else { val };
    if centered >= 0 {
        (centered + 8192) / 16384
    } else {
        -((-centered + 8192) / 16384)
    }
}

/// Entrywise sum modulo `q` of two ciphertext matrices of one shape.
fn add_mod_q(c1: &Matrix, c2: &Matrix) -> (s: Matrix)
    requires
        c1.wf(),
        c2.wf(),
        c1.rows == c2.rows,
        c1.cols == c2.cols,
        forall|i: int, j: int|
            0 <= i < c1.rows && 0 <= j < c1.cols ==> i64::MIN <= #[trigger] c1.at(i, j) + c2.at(
                i,
                j,
            ) <= i64::MAX,
    ensures
        s.wf(),
        s.rows == c1.rows,
        s.cols == c1.cols,
        forall|i: int, j: int|
            0 <= i < c1.rows && 0 <= j < c1.cols ==> #[trigger] s.at(i, j) == (c1.at(i, j) + c2.at(
                i,
                j,
            )) % (Q as int),
        s.within(0, Q - 1),
{
    let sm = mat_add(c1, c2);
    reduce_mod(&sm, Q)
}

/// Homomorphic addition (XOR of bits): `C1 + C2 mod q`.
pub fn homomorphic_add(c1: &BitCiphertext, c2: &BitCiphertext) -> (c: BitCiphertext)
    requires
        c1.0.wf(),
        c2.0.wf(),
        c1.0.rows == c2.0.rows,
        c1.0.cols == c2.0.cols,
        forall|i: int, j: int|
            0 <= i < c1.0.rows && 0 <= j < c1.0.cols ==> i64::MIN <= #[trigger] c1.0.at(i, j)
                + c2.0.at(i, j) <= i64::MAX,
    ensures
        c.0.wf(),
        c.0.rows == c1.0.rows,
        c.0.cols == c1.0.cols,
        forall|i: int, j: int|
            0 <= i < c1.0.rows && 0 <= j < c1.0.cols ==> #[trigger] c.0.at(i, j) == (c1.0.at(i, j)
                + c2.0.at(i, j)) % (Q as int),
        c.0.within(0, Q - 1),
{
    BitCiphertext(add_mod_q(&c1.0, &c2.0))
}

/// Homomorphic addition of integers: `C1 + C2 mod q`.
pub fn homomorphic_add_int(c1: &IntCiphertext, c2: &IntCiphertext) -> (c: IntCiphertext)
    requires
        c1.0.wf(),
        c2.0.wf(),
        c1.0.rows == c2.0.rows,
        c1.0.cols == c2.0.cols,
        forall|i: int, j: int|
            0 <= i < c1.0.rows && 0 <= j < c1.0.cols ==> i64::MIN <= #[trigger] c1.0.at(i, j)
                + c2.0.at(i, j) <= i64::MAX,
    ensures
        c.0.wf(),
        c.0.rows == c1.0.rows,
        c.0.cols == c1.0.cols,
        forall|i: int, j: int|
            0 <= i < c1.0.rows && 0 <= j < c1.0.cols ==> #[trigger] c.0.at(i, j) == (c1.0.at(i, j)
                + c2.0.at(i, j)) % (Q as int),
        c.0.within(0, Q - 1),
{
    IntCiphertext(add_mod_q(&c1.0, &c2.0))
}

/// `C1 G^-1(C2) mod q`.
fn mul_mod_q(c1: &Matrix, c2: &Matrix) -> (p: Matrix)
    requires
        c1.wf(),
        c1.cols == N_COLS,
        c2.wf(),
        c2.rows >= N_LWE + 1,
        c2.cols >= N_COLS,
        ginv_mul_fits(*c1, *c2),
    ensures
        p.wf(),
        p.rows == c1.rows,
        p.cols == N_COLS,
        forall|i: int, j: int|
            0 <= i < c1.rows && 0 <= j < N_COLS ==> #[trigger] p.at(i, j) == hmul_entry(*c1, *c2, i, j),
        p.within(0, Q - 1),
{
    let z = g_inverse(c2);
    proof {
        assert forall|i: int, j: int| 0 <= i < c1.rows && 0 <= j < z.cols implies #[trigger] abs_dot(
            *c1,
            z,
            i,
            j,
            c1.cols as nat,
        ) <= i64::MAX by {
            lemma_sum_ext(
                |k: int| abs(c1.at(i, k) * z.at(k, j)),
                |k: int| abs(c1.at(i, k) * ginv_entry(*c2, k, j)),
                N_COLS as nat,
            );
            assert(ginv_abs_dot(*c1, *c2, i, j) <= i64::MAX);
        }
    }
    let prod = mat_mul(c1, &z);
    let p = reduce_mod(&prod, Q);
    proof {
        assert forall|i: int, j: int| 0 <= i < c1.rows && 0 <= j < N_COLS implies #[trigger] p.at(i, j)
            == hmul_entry(*c1, *c2, i, j) by {
            lemma_sum_ext(
                |k: int| c1.at(i, k) * z.at(k, j),
                |k: int| c1.at(i, k) * ginv_entry(*c2, k, j),
                N_COLS as nat,
            );
        }
    }
    p
}

/// Homomorphic multiplication (AND of bits): `C1 G^-1(C2) mod q`.
pub fn homomorphic_mul(c1: &BitCiphertext, c2: &BitCiphertext) -> (c: BitCiphertext)
    requires
        c1.0.wf(),
        c1.0.cols == N_COLS,
        c2.0.wf(),
        c2.0.rows >= N_LWE + 1,
        c2.0.cols >= N_COLS,
        ginv_mul_fits(c1.0, c2.0),
    ensures
        c.0.wf(),
        c.0.rows == c1.0.rows,
        c.0.cols == N_COLS,
        forall|i: int, j: int|
            0 <= i < c1.0.rows && 0 <= j < N_COLS ==> #[trigger] c.0.at(i, j) == hmul_entry(
                c1.0,
                c2.0,
                i,
                j,
            ),
        c.0.within(0, Q - 1),
{
    BitCiphertext(mul_mod_q(&c1.0, &c2.0))
}

/// Homomorphic multiplication of integers: `C1 G^-1(C2) mod q`.
pub fn homomorphic_mul_int(c1: &IntCiphertext, c2: &IntCiphertext) -> (c: IntCiphertext)
    requires
        c1.0.wf(),
        c1.0.cols == N_COLS,
        c2.0.wf(),
        c2.0.rows >= N_LWE + 1,
        c2.0.cols >= N_COLS,
        ginv_mul_fits(c1.0, c2.0),
    ensures
        c.0.wf(),
        c.0.rows == c1.0.rows,
        c.0.cols == N_COLS,
        forall|i: int, j: int|
            0 <= i < c1.0.rows && 0 <= j < N_COLS ==> #[trigger] c.0.at(i, j) == hmul_entry(
                c1.0,
                c2.0,
                i,
                j,
            ),
        c.0.within(0, Q - 1),
{
    IntCiphertext(mul_mod_q(&c1.0, &c2.0))
}

/// Encrypts each bit of `bits` in turn; the first entry that is not a bit is
/// refused, and nothing after it is encrypted.
pub fn encrypt_bit_vector(a: &Matrix, bits: &[i64], rng: &mut ThreadRng) -> (res: Result<
    Vec<BitCiphertext>,
    FheError,
>)
    requires
        bits@.len() > 0 && (bits@[0] == 0 || bits@[0] == 1) ==> is_public_key_shape(*a) && enc_fits(
            *a,
            1,
        ),
    ensures
        match res {
            Ok(cs) => {
                &&& forall|i: int| 0 <= i < bits@.len() ==> #[trigger] bits@[i] == 0 || bits@[i] == 1
                &&& cs@.len() == bits@.len()
                &&& forall|i: int|
                    0 <= i < bits@.len() ==> is_gsw_encryption(*a, bits@[i] as int, #[trigger] cs@[i].0)
                        && cs@[i].0.within(0, Q - 1)
            },
            Err(e) => exists|k: int|
                0 <= k < bits@.len() && !(bits@[k] == 0 || bits@[k] == 1) && (forall|i: int|
                    0 <= i < k ==> #[trigger] bits@[i] == 0 || bits@[i] == 1) && e == (
                FheError::InvalidMessage { value: #[trigger] bits@[k], expected: "0 or 1" }),
        },
{
    let mut out: Vec<BitCiphertext> = Vec::new();
    let mut i: usize = 0;
    while i < bits.len()
        invariant
            i <= bits@.len(),
            out@.len() == i,
            bits@.len() > 0 && (bits@[0] == 0 || bits@[0] == 1) ==> is_public_key_shape(*a) && enc_fits(
                *a,
                1,
            ),
            forall|k: int| 0 <= k < i ==> #[trigger] bits@[k] == 0 || bits@[k] == 1,
            forall|k: int|
                0 <= k < i ==> is_gsw_encryption(*a, bits@[k] as int, #[trigger] out@[k].0)
                    && out@[k].0.within(0, Q - 1),
        decreases bits@.len() - i,
    {
        let b = bits[i];
        proof {
            if b == 0 || b == 1 {
                assert(bits@[0] == 0 || bits@[0] == 1);
                assert(abs(b as int) <= 1);
                assert forall|r: int| 0 <= r < a.rows implies #[trigger] row_abs_sum(*a, r) + abs(
                    b as int,
                ) * 8388608 <= i64::MAX by {
                    assert(row_abs_sum(*a, r) + abs(1) * 8388608 <= i64::MAX);
                }
            }
        }
        match encrypt(a, b, rng) {
            Ok(c) => {
                out.push(c);
            },
            Err(e) => {
                return Err(e);
            },
        }
        i += 1;
    }
    Ok(out)
}

/// Decrypts each ciphertext in turn.
pub fn decrypt_bit_vector(v: &Matrix, ciphertexts: &[BitCiphertext]) -> (bits: Vec<i64>)
    requires
        forall|i: int| 0 <= i < ciphertexts@.len() ==> decryptable(*v, #[trigger] ciphertexts@[i].0),
    ensures
        bits@.len() == ciphertexts@.len(),
        forall|i: int|
            0 <= i < ciphertexts@.len() ==> #[trigger] bits@[i] == gsw_decrypt_spec(
                *v,
                ciphertexts@[i].0,
            ),
{
    let mut out: Vec<i64> = Vec::new();
    let mut i: usize = 0;
    while i < ciphertexts.len()
        invariant
            i <= ciphertexts@.len(),
            out@.len() == i,
            forall|k: int| 0 <= k < ciphertexts@.len() ==> decryptable(*v, #[trigger] ciphertexts@[k].0),
            forall|k: int| 0 <= k < i ==> #[trigger] out@[k] == gsw_decrypt_spec(*v, ciphertexts@[k].0),
        decreases ciphertexts@.len() - i,
    {
        out.push(decrypt(v, &ciphertexts[i]));
        i += 1;
    }
    out
}

/// The entries of a matrix as integers, column by column.
pub open spec fn ct_data(c: Matrix) -> Seq<int> {
    c.data@.map_values(|x: i64| x as int)
}

/// Entry `(i, j)` of a ciphertext of shape `(n + 1) x N_COLS` given by its entries.
pub open spec fn seq_at(d: Seq<int>, i: int, j: int) -> int {
    d[j * (N_LWE + 1) + i]
}

/// Entrywise sum modulo `q` of two ciphertexts given by their entries.
pub open spec fn add_data(d1: Seq<int>, d2: Seq<int>) -> Seq<int> {
    Seq::new(d1.len(), |x: int| (d1[x] + d2[x]) % (Q as int))
}

/// Entry `(k, j)` of `G^-1` of a ciphertext given by its entries.
pub open spec fn ginv_data(d: Seq<int>, k: int, j: int) -> int {
    ((seq_at(d, k / (L as int), j) % (Q as int)) / (vstd::arithmetic::power2::pow2(
        (k % (L as int)) as nat,
    ) as int)) % 2
}

/// `C1 G^-1(C2) mod q` for ciphertexts given by their entries.
pub open spec fn mul_data(d1: Seq<int>, d2: Seq<int>) -> Seq<int> {
    Seq::new(
        d1.len(),
        |x: int|
            sum(
                |k: int| seq_at(d1, x % (N_LWE + 1) as int, k) * ginv_data(d2, k, x / (N_LWE + 1) as int),
                N_COLS as nat,
            ) % (Q as int),
    )
}

/// One level of the pairwise product tree: neighbours are multiplied, and an odd
/// last element is carried up unchanged.
pub open spec fn reduce_level(lv: Seq<Seq<int>>) -> Seq<Seq<int>> {
    Seq::new(
        ((lv.len() + 1) / 2) as nat,
        |i: int|
            if 2 * i + 1 < lv.len() {
                mul_data(lv[2 * i], lv[2 * i + 1])
            } else {
                lv[2 * i]
            },
    )
}

/// The product of a non-empty list of ciphertexts taken as a balanced tree of
/// pairwise homomorphic multiplications.
pub open spec fn product_tree(lv: Seq<Seq<int>>) -> Seq<int>
    decreases lv.len(),
{
    if lv.len() <= 1 {
        lv[0]
    } else {
        product_tree(reduce_level(lv))
    }
}

/// A ciphertext of shape `(n + 1) x N_COLS` with entries in `[0, q)`.
pub open spec fn is_reduced_ciphertext(c: Matrix) -> bool {
    c.wf() && c.rows == N_LWE + 1 && c.cols == N_COLS && c.within(0, Q - 1)
}

/// The XNOR of two encrypted bits, `C1 + C2 + Enc(1)`, entry by entry.
pub open spec fn xnor_data(c1: Matrix, c2: Matrix, one: Matrix) -> Seq<int> {
    add_data(add_data(ct_data(c1), ct_data(c2)), ct_data(one))
}

/// Both vectors hold ciphertexts of shape `(n + 1) x N_COLS` whose entrywise sums
/// stay in the range of `i64`.
pub open spec fn pairs_addable(v1: Seq<BitCiphertext>, v2: Seq<BitCiphertext>) -> bool {
    forall|i: int|
        0 <= i < v1.len() ==> {
            &&& (#[trigger] v1[i]).0.wf()
            &&& v1[i].0.rows == N_LWE + 1
            &&& v1[i].0.cols == N_COLS
            &&& v2[i].0.wf()
            &&& v2[i].0.rows == N_LWE + 1
            &&& v2[i].0.cols == N_COLS
            &&& forall|r: int, c: int|
                0 <= r < N_LWE + 1 && 0 <= c < N_COLS ==> i64::MIN <= #[trigger] v1[i].0.at(r, c)
                    + v2[i].0.at(r, c) <= i64::MAX
        }
}

/// The XNORs of the pairs of encrypted bits of two vectors of one length.
pub open spec fn xnor_leaves(v1: Seq<BitCiphertext>, v2: Seq<BitCiphertext>, one: Matrix) -> Seq<
    Seq<int>,
> {
    Seq::new(v1.len(), |i: int| xnor_data(v1[i].0, v2[i].0, one))
}

/// Homomorphic equality test of two encrypted bit vectors: each pair of bits is
/// turned into its XNOR `C1 + C2 + Enc(1)`, and the XNORs are multiplied together
/// in a balanced tree. Two empty vectors are equal: the result is the fresh
/// encryption of `1` itself. Vectors of different lengths are refused, and then
/// nothing is drawn from the generator.
pub fn homomorphic_equal(
    a: &Matrix,
    vec1: &[BitCiphertext],
    vec2: &[BitCiphertext],
    rng: &mut ThreadRng,
) -> (res: Result<BitCiphertext, FheError>)
    requires
        vec1@.len() == vec2@.len() ==> {
            &&& is_public_key_shape(*a)
            &&& enc_fits(*a, 1)
            &&& pairs_addable(vec1@, vec2@)
        },
    ensures
        match res {
            Ok(c) => {
                &&& vec1@.len() == vec2@.len()
                &&& is_reduced_ciphertext(c.0)
                &&& exists|one: Matrix|
                    #![trigger xnor_leaves(vec1@, vec2@, one)]
                    is_gsw_encryption(*a, 1, one) && (vec1@.len() == 0 ==> c.0 == one) && (
                    vec1@.len() > 0 ==> ct_data(c.0) == product_tree(xnor_leaves(vec1@, vec2@, one)))
            },
            Err(e) => {
                &&& vec1@.len() != vec2@.len()
                &&& e == (FheError::VectorLengthMismatch {
                    len1: vec1@.len() as usize,
                    len2: vec2@.len() as usize,
                })
                &&& *final(rng) == *old(rng)
            },
        },
{
    if vec1.len() != vec2.len() {
        return Err(FheError::VectorLengthMismatch { len1: vec1.len(), len2: vec2.len() });
    }
    proof {
        assert(abs(1) * 8388608 == 8388608);
    }
    let enc_one = match encrypt(a, 1, rng) {
        Ok(c) => c,
        Err(e) => {
            return Err(e);
        },
    };
    let n = vec1.len();
    let ghost leaves = xnor_leaves(vec1@, vec2@, enc_one.0);
    if n == 0 {
        proof {
            assert(is_gsw_encryption(*a, 1, enc_one.0));
        }
        return Ok(enc_one);
    }
    let mut level: Vec<BitCiphertext> = Vec::new();
    let mut i: usize = 0;
    while i < n
        invariant
            n == vec1@.len(),
            n == vec2@.len(),
            i <= n,
            level@.len() == i,
            is_reduced_ciphertext(enc_one.0),
            leaves == xnor_leaves(vec1@, vec2@, enc_one.0),
            pairs_addable(vec1@, vec2@),
            forall|k: int|
                0 <= k < i ==> is_reduced_ciphertext((#[trigger] level@[k]).0) && ct_data(
                    level@[k].0,
                ) == leaves[k],
        decreases n - i,
    {
        let t = homomorphic_add(&vec1[i], &vec2[i]);
        let x = homomorphic_add(&t, &enc_one);
        proof {
            lemma_add_data(vec1@[i as int].0, vec2@[i as int].0, t.0);
            lemma_add_data(t.0, enc_one.0, x.0);
        }
        level.push(x);
        i += 1;
    }
    proof {
        assert(level@.map_values(|c: BitCiphertext| ct_data(c.0)) =~= leaves);
    }
    while level.len() > 1
        invariant
            level@.len() >= 1,
            forall|k: int| 0 <= k < level@.len() ==> is_reduced_ciphertext((#[trigger] level@[k]).0),
            product_tree(level@.map_values(|c: BitCiphertext| ct_data(c.0))) == product_tree(leaves),
        decreases level@.len(),
    {
        let ghost before = level@.map_values(|c: BitCiphertext| ct_data(c.0));
        let last = if level.len() % 2 == 1 { level.pop() } else { None };
        let half = level.len() / 2;
        let mut next: Vec<BitCiphertext> = Vec::new();
        let mut k: usize = 0;
        while k < half
            invariant
                half * 2 == level@.len(),
                half * 2 <= usize::MAX,
                k <= half,
                next@.len() == k,
                before.len() == level@.len() || before.len() == level@.len() + 1,
                forall|x: int| 0 <= x < level@.len() ==> is_reduced_ciphertext((#[trigger] level@[x]).0),
                forall|x: int| 0 <= x < level@.len() ==> ct_data((#[trigger] level@[x]).0) == before[x],
                forall|x: int|
                    0 <= x < k ==> is_reduced_ciphertext((#[trigger] next@[x]).0) && ct_data(
                        next@[x].0,
                    ) == reduce_level(before)[x],
            decreases half - k,
        {
            proof {
                lemma_ginv_mul_fits(level@[2 * k as int].0, level@[2 * k + 1].0);
            }
            let p = homomorphic_mul(&level[2 * k], &level[2 * k + 1]);
            proof {
                lemma_mul_data(level@[2 * k as int].0, level@[2 * k + 1].0, p.0);
            }
            next.push(p);
            k += 1;
        }
        match last {
            Some(c) => {
                next.push(c);
            },
            None => {},
        }
        proof {
            assert(next@.map_values(|c: BitCiphertext| ct_data(c.0)) =~= reduce_level(before));
        }
        level = next;
    }
    let c = level.pop().unwrap();
    proof {
        assert(ct_data(c.0) == product_tree(leaves));
        assert(is_gsw_encryption(*a, 1, enc_one.0));
    }
    Ok(c)
}

/// The entries of a reduced ciphertext matrix are read back by `seq_at`.
proof fn lemma_seq_at(c: Matrix, i: int, j: int)
    requires
        c.wf(),
        c.rows == N_LWE + 1,
        0 <= i < c.rows,
        0 <= j < c.cols,
    ensures
        seq_at(ct_data(c), i, j) == c.at(i, j),
{
    crate::matrix::lemma_index(c.rows as int, c.cols as int, i, j);
}

/// A ciphertext computed as an entrywise sum modulo `q` has the entries `add_data`
/// gives.
proof fn lemma_add_data(c1: Matrix, c2: Matrix, c: Matrix)
    requires
        c1.wf(),
        c2.wf(),
        c.wf(),
        c1.rows == c2.rows,
        c1.cols == c2.cols,
        c.rows == c1.rows,
        c.cols == c1.cols,
        forall|i: int, j: int|
            0 <= i < c1.rows && 0 <= j < c1.cols ==> #[trigger] c.at(i, j) == (c1.at(i, j) + c2.at(
                i,
                j,
            )) % (Q as int),
    ensures
        ct_data(c) == add_data(ct_data(c1), ct_data(c2)),
{
    assert forall|x: int| 0 <= x < c.data@.len() implies #[trigger] ct_data(c)[x] == add_data(
        ct_data(c1),
        ct_data(c2),
    )[x] by {
        let rows = c.rows as int;
        let i = x % rows;
        let j = x / rows;
        crate::matrix::lemma_flat_index(x, rows, c.cols as int);
        assert(c.at(i, j) == (c1.at(i, j) + c2.at(i, j)) % (Q as int));
    }
    assert(ct_data(c) =~= add_data(ct_data(c1), ct_data(c2)));
}

/// Reduced ciphertexts can be multiplied without overflow.
proof fn lemma_ginv_mul_fits(c1: Matrix, c2: Matrix)
    requires
        is_reduced_ciphertext(c1),
        is_reduced_ciphertext(c2),
    ensures
        ginv_mul_fits(c1, c2),
{
    assert forall|i: int, j: int| 0 <= i < c1.rows && 0 <= j < N_COLS implies #[trigger] ginv_abs_dot(
        c1,
        c2,
        i,
        j,
    ) <= i64::MAX by {
        let f = |k: int| abs(c1.at(i, k) * ginv_entry(c2, k, j));
        assert forall|k: int| 0 <= k < N_COLS implies abs(#[trigger] f(k)) <= Q by {
            let x = c1.at(i, k);
            let b = ginv_entry(c2, k, j);
            assert(0 <= b <= 1);
            assert(0 <= x * b <= Q) by (nonlinear_arith)
                requires
                    0 <= x < Q,
                    0 <= b <= 1,
            ;
        }
        lemma_sum_bound(f, N_COLS as nat, Q as int);
    }
}

/// A ciphertext computed as `C1 G^-1(C2) mod q` has the entries `mul_data` gives.
proof fn lemma_mul_data(c1: Matrix, c2: Matrix, c: Matrix)
    requires
        is_reduced_ciphertext(c1),
        is_reduced_ciphertext(c2),
        c.wf(),
        c.rows == c1.rows,
        c.cols == N_COLS,
        forall|i: int, j: int|
            0 <= i < c1.rows && 0 <= j < N_COLS ==> #[trigger] c.at(i, j) == hmul_entry(c1, c2, i, j),
    ensures
        ct_data(c) == mul_data(ct_data(c1), ct_data(c2)),
{
    assert forall|x: int| 0 <= x < c.data@.len() implies #[trigger] ct_data(c)[x] == mul_data(
        ct_data(c1),
        ct_data(c2),
    )[x] by {
        let rows = (N_LWE + 1) as int;
        let i = x % rows;
        let j = x / rows;
        crate::matrix::lemma_flat_index(x, rows, c.cols as int);
        assert(ct_data(c)[x] == c.at(i, j));
        assert forall|k: int| 0 <= k < N_COLS implies #[trigger] ginv_data(ct_data(c2), k, j)
            == ginv_entry(c2, k, j) by {
            lemma_seq_at(c2, k / (L as int), j);
        }
        assert forall|k: int| 0 <= k < N_COLS implies seq_at(ct_data(c1), i, k) == #[trigger] c1.at(
            i,
            k,
        ) by {
            lemma_seq_at(c1, i, k);
        }
        lemma_sum_ext(
            |k: int| seq_at(ct_data(c1), i, k) * ginv_data(ct_data(c2), k, j),
            |k: int| c1.at(i, k) * ginv_entry(c2, k, j),
            N_COLS as nat,
        );
    }
    assert(ct_data(c) =~= mul_data(ct_data(c1), ct_data(c2)));
}

} // verus!
