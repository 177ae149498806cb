//! Noise bounds for ciphertexts given by their entries: sums and products modulo
//! `q` add and scale the noise. The ciphertexts inside `homomorphic_equal` exist
//! only as entry sequences, and the equality circuit is shown here to decide
//! equality of short bit vectors.
use vstd::prelude::*;
use vstd::arithmetic::div_mod::*;
use vstd::arithmetic::mul::*;
use vstd::arithmetic::power2::*;
use crate::arith::{
    abs, sum, lemma_sum_ext, lemma_sum_add, lemma_sum_scale, lemma_sum_mod, lemma_sum_bound, lemma_sum_swap,
    lemma_bits_rebuild,
};
use crate::matrix::{Matrix, lemma_flat_index};
use crate::params::gsw::{N_LWE, Q, L, N_COLS, M};
use super::gadget::{gadget_entry, ginv_entry};
use super::correctness::{
    v_gadget, centered, is_noisy_encryption, phase_noise, is_sum_mod_q, is_product_mod_q, lemma_centered_small,
    lemma_mod_sub_eq, lemma_v_gadget_last_block, lemma_decode_bit_wide, lemma_sum_block,
};
use super::{
    BitCiphertext, is_gsw_secret, is_gsw_keypair, is_gsw_encryption, phase, decode_bit, gsw_decrypt_spec, hmul_entry,
    half_q, ct_data, seq_at, add_data, ginv_data, mul_data, reduce_level, product_tree, xnor_data,
    xnor_leaves,
};

verus! {

/// Column `t` of `v^T d` for a ciphertext given by its entries.
pub open spec fn phase_d(v: Matrix, d: Seq<int>, t: int) -> int {
    sum(|k: int| v.at(k, 0) * seq_at(d, k, t), (N_LWE + 1) as nat)
}

/// The noise of column `t` of `d` as an encryption of `m`: the phase minus
/// `m v^T G`, centred modulo `q`.
pub open spec fn noise_d(v: Matrix, d: Seq<int>, m: int, t: int) -> int {
    centered((phase_d(v, d, t) - m * v_gadget(v, t)) % (Q as int))
}

/// `d` holds the reduced entries of a ciphertext that encrypts `m` under `v` with
/// noise at most `b` in every column.
pub open spec fn noisy_d(v: Matrix, d: Seq<int>, m: int, b: int) -> bool {
    &&& d.len() == (N_LWE + 1) * N_COLS
    &&& forall|x: int| 0 <= x < d.len() ==> 0 <= #[trigger] d[x] < Q
    &&& forall|t: int| 0 <= t < N_COLS ==> abs(#[trigger] noise_d(v, d, m, t)) <= b
}

/// The phase of a ciphertext matrix is the phase of its entries.
pub(crate) proof fn lemma_phase_is_phase_d(v: Matrix, c: Matrix, t: int)
    requires
        v.rows == N_LWE + 1,
        c.rows == N_LWE + 1,
        c.wf(),
        0 <= t < c.cols,
    ensures
        phase(v, c, t) == phase_d(v, ct_data(c), t),
{
    assert forall|k: int| 0 <= k < N_LWE + 1 implies #[trigger] (v.at(k, 0) * c.at(k, t)) == v.at(k, 0)
        * seq_at(ct_data(c), k, t) by {
        crate::matrix::lemma_index((N_LWE + 1) as int, c.cols as int, k, t);
    }
    lemma_sum_ext(
        |k: int| v.at(k, 0) * c.at(k, t),
        |k: int| v.at(k, 0) * seq_at(ct_data(c), k, t),
        (N_LWE + 1) as nat,
    );
}

/// A noisy encryption as a matrix is one as a sequence of entries.
pub(crate) proof fn lemma_noisy_from_matrix(v: Matrix, c: Matrix, m: int, b: int)
    requires
        v.rows == N_LWE + 1,
        is_noisy_encryption(v, c, m, b),
    ensures
        noisy_d(v, ct_data(c), m, b),
{
    let d = ct_data(c);
    assert forall|x: int| 0 <= x < d.len() implies 0 <= #[trigger] d[x] < Q by {
        lemma_flat_index(x, (N_LWE + 1) as int, N_COLS as int);
        assert(c.at(x % (N_LWE + 1) as int, x / (N_LWE + 1) as int) == d[x]);
    }
    assert forall|t: int| 0 <= t < N_COLS implies abs(#[trigger] noise_d(v, d, m, t)) <= b by {
        lemma_phase_is_phase_d(v, c, t);
        assert(noise_d(v, d, m, t) == phase_noise(v, c, m, t));
    }
}

/// The phase is the noise plus `m v^T G`, modulo `q`.
proof fn lemma_phase_from_noise_d(v: Matrix, d: Seq<int>, m: int, t: int)
    ensures
        phase_d(v, d, t) % (Q as int) == (noise_d(v, d, m, t) + m * v_gadget(v, t)) % (Q as int),
{
    let q = Q as int;
    let p = phase_d(v, d, t);
    let g = m * v_gadget(v, t);
    let y = (p - g) % q;
    if y > half_q() {
        lemma_mod_sub_multiples_vanish(y, q);
    }
    assert(noise_d(v, d, m, t) % q == y % q);
    lemma_mod_twice(p - g, q);
    lemma_add_mod_noop(noise_d(v, d, m, t), g, q);
    lemma_add_mod_noop(p - g, g, q);
}

/// Decoding a ciphertext whose noise is below `q / 4` gives its message modulo 2.
pub(crate) proof fn lemma_decode_noisy_d(v: Matrix, s: Seq<int>, d: Seq<int>, m: int, b: int)
    requires
        is_gsw_secret(v, s),
        noisy_d(v, d, m, b),
        b < 4194304,
    ensures
        decode_bit(phase_d(v, d, N_COLS - 1) % (Q as int)) == m % 2,
{
    let q = Q as int;
    let j = N_COLS - 1;
    lemma_phase_from_noise_d(v, d, m, j);
    lemma_v_gadget_last_block(v, s, j);
    lemma2_to64();
    let x = noise_d(v, d, m, j);
    let r = m % 2;
    let k = m / 2;
    assert(m * 8388608 == k * q + r * 8388608) by (nonlinear_arith)
        requires
            m == 2 * k + r,
            q == 16777216,
    ;
    lemma_mod_multiples_vanish(k, x + r * 8388608, q);
    assert((x + m * 8388608) % q == (x + r * 8388608) % q) by {
        assert(x + m * 8388608 == k * q + (x + r * 8388608));
    }
    lemma_decode_bit_wide(x, r);
}

/// The phase is additive modulo `q` over entrywise sums modulo `q`.
proof fn lemma_phase_add_d(v: Matrix, d1: Seq<int>, d2: Seq<int>, j: int)
    requires
        d1.len() == (N_LWE + 1) * N_COLS,
        d2.len() == d1.len(),
        0 <= j < N_COLS,
    ensures
        phase_d(v, add_data(d1, d2), j) % (Q as int) == (phase_d(v, d1, j) + phase_d(v, d2, j)) % (Q as int),
{
    let q = Q as int;
    let n = (N_LWE + 1) as nat;
    let d = add_data(d1, d2);
    let f = |k: int| v.at(k, 0) * seq_at(d, k, j);
    let g1 = |k: int| v.at(k, 0) * seq_at(d1, k, j);
    let g2 = |k: int| v.at(k, 0) * seq_at(d2, k, j);
    let g = |k: int| g1(k) + g2(k);
    assert forall|k: int| 0 <= k < n implies #[trigger] f(k) % q == g(k) % q by {
        crate::matrix::lemma_index((N_LWE + 1) as int, N_COLS as int, k, j);
        assert(seq_at(d, k, j) == (seq_at(d1, k, j) + seq_at(d2, k, j)) % q);
        lemma_mul_mod_noop_right(v.at(k, 0), seq_at(d1, k, j) + seq_at(d2, k, j), q);
        lemma_mul_is_distributive_add(v.at(k, 0), seq_at(d1, k, j), seq_at(d2, k, j));
    }
    lemma_sum_mod(f, g, n, q);
    lemma_sum_add(g1, g2, n);
}

/// Adding ciphertexts adds messages and noise bounds.
pub(crate) proof fn lemma_add_noise_d(v: Matrix, d1: Seq<int>, m1: int, b1: int, d2: Seq<int>, m2: int, b2: int)
    requires
        noisy_d(v, d1, m1, b1),
        noisy_d(v, d2, m2, b2),
        b1 + b2 < 8388608,
    ensures
        noisy_d(v, add_data(d1, d2), m1 + m2, b1 + b2),
{
    let q = Q as int;
    let d = add_data(d1, d2);
    assert forall|t: int| 0 <= t < N_COLS implies abs(#[trigger] noise_d(v, d, m1 + m2, t)) <= b1 + b2 by {
        let n1 = noise_d(v, d1, m1, t);
        let n2 = noise_d(v, d2, m2, t);
        let g = v_gadget(v, t);
        lemma_phase_from_noise_d(v, d1, m1, t);
        lemma_phase_from_noise_d(v, d2, m2, t);
        lemma_phase_add_d(v, d1, d2, t);
        lemma_add_mod_noop(phase_d(v, d1, t), phase_d(v, d2, t), q);
        lemma_add_mod_noop(n1 + m1 * g, n2 + m2 * g, q);
        assert((n1 + m1 * g) + (n2 + m2 * g) == (n1 + n2) + (m1 + m2) * g) by (nonlinear_arith);
        lemma_mod_sub_eq(phase_d(v, d, t), (n1 + n2) + (m1 + m2) * g, (m1 + m2) * g, q);
        lemma_centered_small(n1 + n2);
    }
}

/// Entry `(i, j)` of `C1 G^-1(C2) mod q`, for ciphertexts given by their entries.
proof fn lemma_mul_data_entry(d1: Seq<int>, d2: Seq<int>, i: int, j: int)
    requires
        d1.len() == (N_LWE + 1) * N_COLS,
        0 <= i < N_LWE + 1,
        0 <= j < N_COLS,
    ensures
        seq_at(mul_data(d1, d2), i, j) == sum(|k: int| seq_at(d1, i, k) * ginv_data(d2, k, j), N_COLS as nat)
            % (Q as int),
{
    let x = j * (N_LWE + 1) + i;
    crate::matrix::lemma_index((N_LWE + 1) as int, N_COLS as int, i, j);
    vstd::arithmetic::div_mod::lemma_fundamental_div_mod_converse(x, (N_LWE + 1) as int, j, i);
    lemma_sum_ext(
        |k: int| seq_at(d1, x % (N_LWE + 1) as int, k) * ginv_data(d2, k, x / (N_LWE + 1) as int),
        |k: int| seq_at(d1, i, k) * ginv_data(d2, k, j),
        N_COLS as nat,
    );
}

/// The phase of `C1 G^-1(C2)` is `sum_t phase(C1, t) G^-1(C2)[t][j]` modulo `q`.
proof fn lemma_phase_of_product_d(v: Matrix, d1: Seq<int>, d2: Seq<int>, j: int)
    requires
        d1.len() == (N_LWE + 1) * N_COLS,
        0 <= j < N_COLS,
    ensures
        phase_d(v, mul_data(d1, d2), j) % (Q as int) == sum(
            |t: int| phase_d(v, d1, t) * ginv_data(d2, t, j),
            N_COLS as nat,
        ) % (Q as int),
{
    let q = Q as int;
    let n5 = (N_LWE + 1) as nat;
    let d = mul_data(d1, d2);
    let z = |t: int| ginv_data(d2, t, j);
    let f = |k: int| v.at(k, 0) * seq_at(d, k, j);
    let g = |k: int| v.at(k, 0) * sum(|t: int| seq_at(d1, k, t) * z(t), N_COLS as nat);
    assert forall|k: int| 0 <= k < n5 implies #[trigger] f(k) % q == g(k) % q by {
        lemma_mul_data_entry(d1, d2, k, j);
        lemma_sum_ext(
            |t: int| seq_at(d1, k, t) * ginv_data(d2, t, j),
            |t: int| seq_at(d1, k, t) * z(t),
            N_COLS as nat,
        );
        lemma_mul_mod_noop_right(v.at(k, 0), sum(|t: int| seq_at(d1, k, t) * z(t), N_COLS as nat), q);
    }
    lemma_sum_mod(f, g, n5, q);
    let h = |k: int, t: int| v.at(k, 0) * (seq_at(d1, k, t) * z(t));
    assert forall|k: int| 0 <= k < n5 implies #[trigger] g(k) == sum(|t: int| h(k, t), N_COLS as nat) by {
        lemma_sum_scale(|t: int| seq_at(d1, k, t) * z(t), v.at(k, 0), N_COLS as nat);
        lemma_sum_ext(
            |t: int| v.at(k, 0) * (|t: int| seq_at(d1, k, t) * z(t))(t),
            |t: int| h(k, t),
            N_COLS as nat,
        );
    }
    lemma_sum_ext(g, |k: int| sum(|t: int| h(k, t), N_COLS as nat), n5);
    lemma_sum_swap(h, n5, N_COLS as nat);
    assert forall|t: int| 0 <= t < N_COLS implies sum(|k: int| h(k, t), n5) == phase_d(v, d1, t) * #[trigger] z(t) by {
        assert forall|k: int| 0 <= k < n5 implies #[trigger] h(k, t) == z(t) * (v.at(k, 0) * seq_at(d1, k, t)) by {
            let x = v.at(k, 0);
            let y = seq_at(d1, k, t);
            let w = z(t);
            assert(x * (y * w) == w * (x * y)) by (nonlinear_arith);
        }
        lemma_sum_ext(
            |k: int| h(k, t),
            |k: int| z(t) * (|k: int| v.at(k, 0) * seq_at(d1, k, t))(k),
            n5,
        );
        lemma_sum_scale(|k: int| v.at(k, 0) * seq_at(d1, k, t), z(t), n5);
        lemma_mul_is_commutative(z(t), phase_d(v, d1, t));
    }
    lemma_sum_ext(
        |t: int| sum(|k: int| h(k, t), n5),
        |t: int| phase_d(v, d1, t) * ginv_data(d2, t, j),
        N_COLS as nat,
    );
}

/// The gadget matrix recomposes the bit decomposition of entries.
proof fn lemma_gadget_recomposes_d(d: Seq<int>, k: int, j: int)
    requires
        0 <= k < N_LWE + 1,
        0 <= j < N_COLS,
    ensures
        sum(|t: int| gadget_entry(k, t) * ginv_data(d, t, j), N_COLS as nat) == seq_at(d, k, j) % (Q as int),
{
    let f = |t: int| gadget_entry(k, t) * ginv_data(d, t, j);
    let x = seq_at(d, k, j) % (Q as int);
    let start = (L * k) as nat;
    assert forall|t: int| 0 <= t < N_COLS && !(start <= t < start + L) implies #[trigger] f(t) == 0 by {}
    lemma_sum_block(f, N_COLS as nat, start, L as nat);
    assert forall|l: int| 0 <= l < L implies #[trigger] f(start + l) == (pow2(l as nat) as int) * ((x / (
    pow2(l as nat) as int)) % 2) by {
        assert((start + l) / (L as int) == k);
        assert((start + l) % (L as int) == l);
    }
    lemma_sum_ext(
        |l: int| f(start + l),
        |l: int| (pow2(l as nat) as int) * ((x / (pow2(l as nat) as int)) % 2),
        L as nat,
    );
    lemma_bits_rebuild(x, L as nat);
    lemma2_to64();
    lemma_small_mod(x as nat, pow2(24) as nat);
}

/// `sum_t (v^T G)[t] G^-1(d2)[t][j] = v^T (d2 mod q)` at column `j`.
proof fn lemma_gadget_phase_d(v: Matrix, d2: Seq<int>, j: int)
    requires
        0 <= j < N_COLS,
    ensures
        sum(|t: int| v_gadget(v, t) * ginv_data(d2, t, j), N_COLS as nat) % (Q as int) == phase_d(v, d2, j)
            % (Q as int),
{
    let q = Q as int;
    let n5 = (N_LWE + 1) as nat;
    let h = |k: int, t: int| v.at(k, 0) * (gadget_entry(k, t) * ginv_data(d2, t, j));
    assert forall|t: int| 0 <= t < N_COLS implies #[trigger] (v_gadget(v, t) * ginv_data(d2, t, j)) == sum(
        |k: int| h(k, t),
        n5,
    ) by {
        let w = ginv_data(d2, t, j);
        lemma_sum_scale(|k: int| v.at(k, 0) * gadget_entry(k, t), w, n5);
        assert forall|k: int| 0 <= k < n5 implies #[trigger] h(k, t) == w * (v.at(k, 0) * gadget_entry(k, t)) by {
            let x = v.at(k, 0);
            let y = gadget_entry(k, t);
            assert(x * (y * w) == w * (x * y)) by (nonlinear_arith);
        }
        lemma_sum_ext(
            |k: int| w * (|k: int| v.at(k, 0) * gadget_entry(k, t))(k),
            |k: int| h(k, t),
            n5,
        );
        lemma_mul_is_commutative(w, v_gadget(v, t));
    }
    lemma_sum_ext(
        |t: int| v_gadget(v, t) * ginv_data(d2, t, j),
        |t: int| sum(|k: int| h(k, t), n5),
        N_COLS as nat,
    );
    lemma_sum_swap(h, n5, N_COLS as nat);
    assert forall|k: int| 0 <= k < n5 implies sum(|t: int| h(k, t), N_COLS as nat) == #[trigger] v.at(k, 0)
        * (seq_at(d2, k, j) % q) by {
        lemma_sum_scale(|t: int| gadget_entry(k, t) * ginv_data(d2, t, j), v.at(k, 0), N_COLS as nat);
        lemma_sum_ext(
            |t: int| v.at(k, 0) * (|t: int| gadget_entry(k, t) * ginv_data(d2, t, j))(t),
            |t: int| h(k, t),
            N_COLS as nat,
        );
        lemma_gadget_recomposes_d(d2, k, j);
    }
    let f = |k: int| sum(|t: int| h(k, t), N_COLS as nat);
    let g = |k: int| v.at(k, 0) * seq_at(d2, k, j);
    assert forall|k: int| 0 <= k < n5 implies #[trigger] f(k) % q == g(k) % q by {
        lemma_mul_mod_noop_right(v.at(k, 0), seq_at(d2, k, j), q);
    }
    lemma_sum_mod(f, g, n5, q);
}

/// Multiplying ciphertexts multiplies messages; the noise grows to
/// `N_COLS b1 + |m1| b2`.
pub(crate) proof fn lemma_mul_noise_d(v: Matrix, d1: Seq<int>, m1: int, b1: int, d2: Seq<int>, m2: int, b2: int)
    requires
        noisy_d(v, d1, m1, b1),
        noisy_d(v, d2, m2, b2),
        (N_COLS as int) * b1 + abs(m1) * b2 < 8388608,
    ensures
        noisy_d(v, mul_data(d1, d2), m1 * m2, (N_COLS as int) * b1 + abs(m1) * b2),
{
    let q = Q as int;
    let d = mul_data(d1, d2);
    assert forall|j: int| 0 <= j < N_COLS implies abs(#[trigger] noise_d(v, d, m1 * m2, j)) <= (N_COLS as int)
        * b1 + abs(m1) * b2 by {
        let z = |t: int| ginv_data(d2, t, j);
        lemma_phase_of_product_d(v, d1, d2, j);
        let p1 = |t: int| phase_d(v, d1, t) * z(t);
        let n1z = |t: int| noise_d(v, d1, m1, t) * z(t);
        let gz = |t: int| v_gadget(v, t) * z(t);
        let split = |t: int| n1z(t) + m1 * gz(t);
        assert forall|t: int| 0 <= t < N_COLS implies #[trigger] p1(t) % q == split(t) % q by {
            lemma_phase_from_noise_d(v, d1, m1, t);
            lemma_mul_mod_noop_left(phase_d(v, d1, t), z(t), q);
            lemma_mul_mod_noop_left(noise_d(v, d1, m1, t) + m1 * v_gadget(v, t), z(t), q);
            let a0 = noise_d(v, d1, m1, t);
            let g0 = v_gadget(v, t);
            let w = z(t);
            assert((a0 + m1 * g0) * w == a0 * w + m1 * (g0 * w)) by (nonlinear_arith);
        }
        lemma_sum_mod(p1, split, N_COLS as nat, q);
        lemma_sum_ext(p1, |t: int| phase_d(v, d1, t) * ginv_data(d2, t, j), N_COLS as nat);
        lemma_sum_ext(split, |t: int| n1z(t) + (|t: int| m1 * gz(t))(t), N_COLS as nat);
        lemma_sum_add(n1z, |t: int| m1 * gz(t), N_COLS as nat);
        lemma_sum_scale(gz, m1, N_COLS as nat);
        let sn = sum(n1z, N_COLS as nat);
        let sg = sum(gz, N_COLS as nat);
        lemma_gadget_phase_d(v, d2, j);
        lemma_sum_ext(gz, |t: int| v_gadget(v, t) * ginv_data(d2, t, j), N_COLS as nat);
        lemma_phase_from_noise_d(v, d2, m2, j);
        let n2 = noise_d(v, d2, m2, j);
        let gj = v_gadget(v, j);
        lemma_mul_mod_noop_right(m1, sg, q);
        lemma_mul_mod_noop_right(m1, n2 + m2 * gj, q);
        lemma_add_mod_noop(sn, m1 * sg, q);
        lemma_add_mod_noop(sn, m1 * (n2 + m2 * gj), q);
        assert(phase_d(v, d, j) % q == (sn + m1 * (n2 + m2 * gj)) % q);
        assert(sn + m1 * (n2 + m2 * gj) == (sn + m1 * n2) + (m1 * m2) * gj) by (nonlinear_arith);
        assert forall|t: int| 0 <= t < N_COLS implies abs(#[trigger] n1z(t)) <= b1 by {
            let a0 = noise_d(v, d1, m1, t);
            let w = z(t);
            assert(0 <= w <= 1);
            assert(abs(a0 * w) <= abs(a0)) by (nonlinear_arith)
                requires
                    0 <= w <= 1,
            ;
        }
        lemma_sum_bound(n1z, N_COLS as nat, b1);
        assert(abs(m1 * n2) <= abs(m1) * b2) by (nonlinear_arith)
            requires
                abs(n2) <= b2,
        ;
        lemma_mod_sub_eq(phase_d(v, d, j), (sn + m1 * n2) + (m1 * m2) * gj, (m1 * m2) * gj, q);
        lemma_centered_small(sn + m1 * n2);
    }
}

/// The XNOR of two fresh encryptions of bits, `C1 + C2 + Enc(1)`, encrypts
/// `b1 + b2 + 1` with noise at most `3 M`.
proof fn lemma_xnor_leaf(v: Matrix, a: Matrix, b1: int, b2: int, c1: Matrix, c2: Matrix, one: Matrix)
    requires
        is_gsw_keypair(v, a),
        is_gsw_encryption(a, b1, c1),
        is_gsw_encryption(a, b2, c2),
        is_gsw_encryption(a, 1, one),
    ensures
        noisy_d(v, xnor_data(c1, c2, one), b1 + b2 + 1, 75),
{
    let (s, e) = choose|s: Seq<int>, e: Seq<int>| is_gsw_secret(v, s) && #[trigger] super::lwe_relation(a, s, e);
    super::correctness::gsw_fresh_encryption_noise(v, a, b1, c1);
    super::correctness::gsw_fresh_encryption_noise(v, a, b2, c2);
    super::correctness::gsw_fresh_encryption_noise(v, a, 1, one);
    lemma_noisy_from_matrix(v, c1, b1, M as int);
    lemma_noisy_from_matrix(v, c2, b2, M as int);
    lemma_noisy_from_matrix(v, one, 1, M as int);
    lemma_add_noise_d(v, ct_data(c1), b1, 25, ct_data(c2), b2, 25);
    lemma_add_noise_d(v, add_data(ct_data(c1), ct_data(c2)), b1 + b2, 50, ct_data(one), 1, 25);
}

/// A product is odd exactly when both factors are.
proof fn lemma_parity_mul(x: int, y: int)
    ensures
        (x * y) % 2 == 1 <==> (x % 2 == 1 && y % 2 == 1),
        0 <= (x * y) % 2 <= 1,
{
    lemma_mul_mod_noop(x, y, 2);
    let a = x % 2;
    let b = y % 2;
    assert(0 <= a <= 1 && 0 <= b <= 1);
    assert(a * b == (if a == 1 && b == 1 { 1int } else { 0int })) by (nonlinear_arith)
        requires
            0 <= a <= 1,
            0 <= b <= 1,
    ;
}

/// Decoding the product tree of up to four noisy XNORs gives `1` exactly when
/// every message is odd.
proof fn lemma_tree_decodes(v: Matrix, s: Seq<int>, lv: Seq<Seq<int>>, ms: Seq<int>)
    requires
        is_gsw_secret(v, s),
        1 <= lv.len() <= 4,
        ms.len() == lv.len(),
        forall|i: int| 0 <= i < lv.len() ==> 1 <= #[trigger] ms[i] <= 3 && noisy_d(v, lv[i], ms[i], 75),
    ensures
        decode_bit(phase_d(v, product_tree(lv), N_COLS - 1) % (Q as int)) == if (forall|i: int|
            0 <= i < lv.len() ==> #[trigger] ms[i] % 2 == 1) {
            1int
        } else {
            0int
        },
{
    assert(noisy_d(v, lv[0], ms[0], 75));
    let n = lv.len();
    let all_odd = forall|i: int| 0 <= i < n ==> #[trigger] ms[i] % 2 == 1;
    if n == 1 {
        assert(product_tree(lv) == lv[0]);
        lemma_decode_noisy_d(v, s, lv[0], ms[0], 75);
        assert(all_odd <==> ms[0] % 2 == 1);
    } else {
        assert(noisy_d(v, lv[1], ms[1], 75));
        let p01 = mul_data(lv[0], lv[1]);
        lemma_mul_noise_d(v, lv[0], ms[0], 75, lv[1], ms[1], 75);
        let m01 = ms[0] * ms[1];
        assert(1 <= m01 <= 9) by (nonlinear_arith)
            requires
                1 <= ms[0] <= 3,
                1 <= ms[1] <= 3,
                m01 == ms[0] * ms[1],
        ;
        lemma_parity_mul(ms[0], ms[1]);
        let r1 = reduce_level(lv);
        if n == 2 {
            assert(r1.len() == 1);
            assert(r1[0] == p01);
            assert(product_tree(r1) == p01);
            assert(product_tree(lv) == p01);
            lemma_decode_noisy_d(v, s, p01, m01, 9225);
            assert(all_odd <==> (ms[0] % 2 == 1 && ms[1] % 2 == 1));
        } else if n == 3 {
            assert(noisy_d(v, lv[2], ms[2], 75));
            assert(r1.len() == 2);
            assert(r1[0] == p01);
            assert(r1[1] == lv[2]);
            let p = mul_data(p01, lv[2]);
            let r2 = reduce_level(r1);
            assert(r2.len() == 1);
            assert(r2[0] == p);
            assert(product_tree(r2) == p);
            assert(product_tree(r1) == p);
            assert(product_tree(lv) == p);
            lemma_mul_noise_d(v, p01, m01, 9225, lv[2], ms[2], 75);
            assert((N_COLS as int) * 9225 + abs(m01) * 75 <= 1107675);
            lemma_decode_noisy_d(v, s, p, m01 * ms[2], (N_COLS as int) * 9225 + abs(m01) * 75);
            lemma_parity_mul(m01, ms[2]);
            assert(all_odd <==> (ms[0] % 2 == 1 && ms[1] % 2 == 1 && ms[2] % 2 == 1));
        } else {
            assert(noisy_d(v, lv[2], ms[2], 75));
            assert(noisy_d(v, lv[3], ms[3], 75));
            let p23 = mul_data(lv[2], lv[3]);
            lemma_mul_noise_d(v, lv[2], ms[2], 75, lv[3], ms[3], 75);
            let m23 = ms[2] * ms[3];
            assert(1 <= m23 <= 9) by (nonlinear_arith)
                requires
                    1 <= ms[2] <= 3,
                    1 <= ms[3] <= 3,
                    m23 == ms[2] * ms[3],
            ;
            lemma_parity_mul(ms[2], ms[3]);
            assert(r1.len() == 2);
            assert(r1[0] == p01);
            assert(r1[1] == p23);
            let p = mul_data(p01, p23);
            let r2 = reduce_level(r1);
            assert(r2.len() == 1);
            assert(r2[0] == p);
            assert(product_tree(r2) == p);
            assert(product_tree(r1) == p);
            assert(product_tree(lv) == p);
            lemma_mul_noise_d(v, p01, m01, 9225, p23, m23, 9225);
            assert((N_COLS as int) * 9225 + abs(m01) * 9225 <= 1190025);
            lemma_decode_noisy_d(v, s, p, m01 * m23, (N_COLS as int) * 9225 + abs(m01) * 9225);
            lemma_parity_mul(m01, m23);
            assert(all_odd <==> (ms[0] % 2 == 1 && ms[1] % 2 == 1 && ms[2] % 2 == 1 && ms[3] % 2 == 1));
        }
    }
}

/// Homomorphic equality decides equality: for fresh encryptions under one key
/// pair of two bit vectors of one length between 1 and 4, and the encryption of
/// `1` that `homomorphic_equal` draws, the ciphertext it returns decrypts to `1`
/// when the vectors are equal and to `0` when they differ.
pub proof fn gsw_equal_decides(
    v: Matrix,
    a: Matrix,
    vec1: Seq<BitCiphertext>,
    vec2: Seq<BitCiphertext>,
    bits1: Seq<int>,
    bits2: Seq<int>,
    one: Matrix,
    c: Matrix,
)
    requires
        is_gsw_keypair(v, a),
        1 <= vec1.len() <= 4,
        vec2.len() == vec1.len(),
        bits1.len() == vec1.len(),
        bits2.len() == vec1.len(),
        forall|i: int|
            0 <= i < vec1.len() ==> (#[trigger] bits1[i] == 0 || bits1[i] == 1) && is_gsw_encryption(
                a,
                bits1[i],
                vec1[i].0,
            ),
        forall|i: int|
            0 <= i < vec1.len() ==> (#[trigger] bits2[i] == 0 || bits2[i] == 1) && is_gsw_encryption(
                a,
                bits2[i],
                vec2[i].0,
            ),
        is_gsw_encryption(a, 1, one),
        c.wf(),
        c.rows == N_LWE + 1,
        c.cols == N_COLS,
        ct_data(c) == product_tree(xnor_leaves(vec1, vec2, one)),
    ensures
        gsw_decrypt_spec(v, c) == if (forall|i: int| 0 <= i < vec1.len() ==> #[trigger] bits1[i] == bits2[i]) {
            1int
        } else {
            0int
        },
{
    let (s, e) = choose|s: Seq<int>, e: Seq<int>| is_gsw_secret(v, s) && #[trigger] super::lwe_relation(a, s, e);
    let lv = xnor_leaves(vec1, vec2, one);
    let ms = Seq::new(vec1.len(), |i: int| bits1[i] + bits2[i] + 1);
    assert forall|i: int| 0 <= i < lv.len() implies 1 <= #[trigger] ms[i] <= 3 && noisy_d(v, lv[i], ms[i], 75) by {
        assert(bits1[i] == 0 || bits1[i] == 1);
        assert(bits2[i] == 0 || bits2[i] == 1);
        lemma_xnor_leaf(v, a, bits1[i], bits2[i], vec1[i].0, vec2[i].0, one);
    }
    lemma_tree_decodes(v, s, lv, ms);
    lemma_phase_is_phase_d(v, c, N_COLS - 1);
    assert((forall|i: int| 0 <= i < vec1.len() ==> #[trigger] bits1[i] == bits2[i]) <==> (forall|i: int|
        0 <= i < lv.len() ==> #[trigger] ms[i] % 2 == 1)) by {
        assert forall|i: int| 0 <= i < vec1.len() implies (#[trigger] bits1[i] == bits2[i]) <==> ms[i] % 2 == 1 by {
            assert(bits1[i] == 0 || bits1[i] == 1);
            assert(bits2[i] == 0 || bits2[i] == 1);
        }
    }
}

/// A ciphertext matrix whose entries form a noisy encryption is one.
pub(crate) proof fn lemma_noisy_to_matrix(v: Matrix, c: Matrix, m: int, b: int)
    requires
        v.rows == N_LWE + 1,
        c.wf(),
        c.rows == N_LWE + 1,
        c.cols == N_COLS,
        noisy_d(v, ct_data(c), m, b),
    ensures
        is_noisy_encryption(v, c, m, b),
{
    let d = ct_data(c);
    assert forall|i: int, j: int| 0 <= i < c.rows && 0 <= j < c.cols implies 0 <= #[trigger] c.at(i, j) <= Q - 1 by {
        crate::matrix::lemma_index((N_LWE + 1) as int, N_COLS as int, i, j);
        assert(c.at(i, j) == d[j * (N_LWE + 1) + i]);
    }
    assert forall|t: int| 0 <= t < N_COLS implies abs(#[trigger] phase_noise(v, c, m, t)) <= b by {
        lemma_phase_is_phase_d(v, c, t);
        assert(noise_d(v, d, m, t) == phase_noise(v, c, m, t));
    }
}

/// An entrywise sum modulo `q`, given by its entries.
pub(crate) proof fn lemma_sum_data(c: Matrix, c1: Matrix, c2: Matrix)
    requires
        is_sum_mod_q(c, c1, c2),
        c.wf(),
        c1.wf(),
        c2.wf(),
        c.rows == N_LWE + 1,
        c.cols == N_COLS,
    ensures
        ct_data(c) == add_data(ct_data(c1), ct_data(c2)),
{
    let n5 = (N_LWE + 1) as int;
    assert forall|x: int| 0 <= x < ct_data(c).len() implies #[trigger] ct_data(c)[x] == add_data(
        ct_data(c1),
        ct_data(c2),
    )[x] by {
        lemma_flat_index(x, n5, N_COLS as int);
        let i = x % n5;
        let j = x / n5;
        assert(c.at(i, j) == (c1.at(i, j) + c2.at(i, j)) % (Q as int));
    }
    assert(ct_data(c) =~= add_data(ct_data(c1), ct_data(c2)));
}

/// `C1 G^-1(C2) mod q`, given by its entries.
pub(crate) proof fn lemma_product_data(c: Matrix, c1: Matrix, c2: Matrix)
    requires
        is_product_mod_q(c, c1, c2),
        c1.wf(),
        c2.wf(),
        c1.rows == N_LWE + 1,
        c1.cols == N_COLS,
        c2.rows == N_LWE + 1,
        c2.cols == N_COLS,
    ensures
        ct_data(c) == mul_data(ct_data(c1), ct_data(c2)),
{
    let n5 = (N_LWE + 1) as int;
    let d1 = ct_data(c1);
    let d2 = ct_data(c2);
    assert forall|x: int| 0 <= x < ct_data(c).len() implies #[trigger] ct_data(c)[x] == mul_data(d1, d2)[x] by {
        lemma_flat_index(x, n5, N_COLS as int);
        let i = x % n5;
        let j = x / n5;
        assert(c.at(i, j) == hmul_entry(c1, c2, i, j));
        assert forall|k: int| 0 <= k < N_COLS implies #[trigger] (c1.at(i, k) * ginv_entry(c2, k, j)) == seq_at(
            d1,
            i,
            k,
        ) * ginv_data(d2, k, j) by {
            crate::matrix::lemma_index(n5, N_COLS as int, i, k);
            crate::matrix::lemma_index(n5, N_COLS as int, k / (L as int), j);
        }
        lemma_sum_ext(
            |k: int| c1.at(i, k) * ginv_entry(c2, k, j),
            |k: int| seq_at(d1, i, k) * ginv_data(d2, k, j),
            N_COLS as nat,
        );
        lemma_sum_ext(
            |k: int| seq_at(d1, x % n5, k) * ginv_data(d2, k, x / n5),
            |k: int| seq_at(d1, i, k) * ginv_data(d2, k, j),
            N_COLS as nat,
        );
    }
    assert(ct_data(c) =~= mul_data(d1, d2));
}

/// The XNOR leaves pair every bit: one leaf per position of the vectors, leaf `i`
/// being `C1[i] + C2[i] + Enc(1)` entry by entry.
pub proof fn xnor_leaves_one_per_pair(vec1: Seq<BitCiphertext>, vec2: Seq<BitCiphertext>, one: Matrix)
    requires
        vec1.len() == vec2.len(),
    ensures
        xnor_leaves(vec1, vec2, one).len() == vec1.len(),
        forall|i: int|
            0 <= i < vec1.len() ==> #[trigger] xnor_leaves(vec1, vec2, one)[i] == add_data(
                add_data(ct_data(vec1[i].0), ct_data(vec2[i].0)),
                ct_data(one),
            ),
{
}

/// Noise-free ciphertexts stay noise-free under products, so the product tree of
/// noise-free encryptions of `ms[i] >= 1` is a noise-free encryption of a message
/// `m >= 1` that is odd exactly when every `ms[i]` is odd.
proof fn lemma_tree_exact(v: Matrix, lv: Seq<Seq<int>>, ms: Seq<int>) -> (m: int)
    requires
        lv.len() >= 1,
        ms.len() == lv.len(),
        forall|i: int| 0 <= i < lv.len() ==> #[trigger] ms[i] >= 1 && noisy_d(v, lv[i], ms[i], 0),
    ensures
        m >= 1,
        noisy_d(v, product_tree(lv), m, 0),
        (m % 2 == 1) <==> (forall|i: int| 0 <= i < lv.len() ==> #[trigger] ms[i] % 2 == 1),
    decreases lv.len(),
{
    let n = lv.len();
    if n == 1 {
        assert(product_tree(lv) == lv[0]);
        assert(ms[0] >= 1 && noisy_d(v, lv[0], ms[0], 0));
        ms[0]
    } else {
        let r = reduce_level(lv);
        let h = ((n + 1) / 2) as nat;
        let ms2 = Seq::new(h, |k: int| if 2 * k + 1 < n { ms[2 * k] * ms[2 * k + 1] } else { ms[2 * k] });
        assert forall|k: int| 0 <= k < h implies #[trigger] ms2[k] >= 1 && noisy_d(v, r[k], ms2[k], 0) by {
            assert(ms[2 * k] >= 1 && noisy_d(v, lv[2 * k], ms[2 * k], 0));
            if 2 * k + 1 < n {
                let m1 = ms[2 * k];
                let m2 = ms[2 * k + 1];
                assert(m2 >= 1 && noisy_d(v, lv[2 * k + 1], m2, 0));
                assert((N_COLS as int) * 0 + abs(m1) * 0 == 0) by (nonlinear_arith);
                lemma_mul_noise_d(v, lv[2 * k], m1, 0, lv[2 * k + 1], m2, 0);
                assert(m1 * m2 >= 1) by (nonlinear_arith)
                    requires
                        m1 >= 1,
                        m2 >= 1,
                ;
            }
        }
        assert(r.len() == h);
        let m = lemma_tree_exact(v, r, ms2);
        assert(product_tree(lv) == product_tree(r));
        assert((forall|k: int| 0 <= k < h ==> #[trigger] ms2[k] % 2 == 1) <==> (forall|i: int|
            0 <= i < n ==> #[trigger] ms[i] % 2 == 1)) by {
            assert forall|k: int| 0 <= k < h implies (#[trigger] ms2[k] % 2 == 1) <==> (ms[2 * k] % 2 == 1 && (2 * k
                + 1 < n ==> ms[2 * k + 1] % 2 == 1)) by {
                if 2 * k + 1 < n {
                    lemma_parity_mul(ms[2 * k], ms[2 * k + 1]);
                }
            }
            if forall|k: int| 0 <= k < h ==> #[trigger] ms2[k] % 2 == 1 {
                assert forall|i: int| 0 <= i < n implies #[trigger] ms[i] % 2 == 1 by {
                    let k = i / 2;
                    assert(ms2[k] % 2 == 1);
                }
            }
            if forall|i: int| 0 <= i < n ==> #[trigger] ms[i] % 2 == 1 {
                assert forall|k: int| 0 <= k < h implies #[trigger] ms2[k] % 2 == 1 by {
                    assert(ms[2 * k] % 2 == 1);
                    if 2 * k + 1 < n {
                        assert(ms[2 * k + 1] % 2 == 1);
                    }
                }
            }
        }
        m
    }
}

/// Homomorphic equality decides equality of bit vectors of every length. For
/// noise-free encryptions (noise `0` in every column) of two bit vectors of one
/// length `n >= 1` and of `1`, the ciphertext whose entries are the product tree
/// of the XNORs of all `n` pairs, as `homomorphic_equal` computes it, decrypts to
/// `1` exactly when the vectors agree at every position. Noise-free inputs keep
/// the circuit free of noise, so no length limits the statement.
pub proof fn gsw_equal_decides_exact(
    v: Matrix,
    a: Matrix,
    vec1: Seq<BitCiphertext>,
    vec2: Seq<BitCiphertext>,
    bits1: Seq<int>,
    bits2: Seq<int>,
    one: Matrix,
    c: Matrix,
)
    requires
        is_gsw_keypair(v, a),
        vec1.len() >= 1,
        vec2.len() == vec1.len(),
        bits1.len() == vec1.len(),
        bits2.len() == vec1.len(),
        forall|i: int|
            0 <= i < vec1.len() ==> (#[trigger] bits1[i] == 0 || bits1[i] == 1) && is_noisy_encryption(
                v,
                vec1[i].0,
                bits1[i],
                0,
            ),
        forall|i: int|
            0 <= i < vec1.len() ==> (#[trigger] bits2[i] == 0 || bits2[i] == 1) && is_noisy_encryption(
                v,
                vec2[i].0,
                bits2[i],
                0,
            ),
        is_noisy_encryption(v, one, 1, 0),
        c.wf(),
        c.rows == N_LWE + 1,
        c.cols == N_COLS,
        ct_data(c) == product_tree(xnor_leaves(vec1, vec2, one)),
    ensures
        gsw_decrypt_spec(v, c) == if (forall|i: int| 0 <= i < vec1.len() ==> #[trigger] bits1[i] == bits2[i]) {
            1int
        } else {
            0int
        },
{
    let (s, e) = choose|s: Seq<int>, e: Seq<int>| is_gsw_secret(v, s) && #[trigger] super::lwe_relation(a, s, e);
    let lv = xnor_leaves(vec1, vec2, one);
    let ms = Seq::new(vec1.len(), |i: int| bits1[i] + bits2[i] + 1);
    lemma_noisy_from_matrix(v, one, 1, 0);
    assert forall|i: int| 0 <= i < lv.len() implies #[trigger] ms[i] >= 1 && noisy_d(v, lv[i], ms[i], 0) by {
        assert(bits1[i] == 0 || bits1[i] == 1);
        assert(bits2[i] == 0 || bits2[i] == 1);
        lemma_noisy_from_matrix(v, vec1[i].0, bits1[i], 0);
        lemma_noisy_from_matrix(v, vec2[i].0, bits2[i], 0);
        lemma_add_noise_d(v, ct_data(vec1[i].0), bits1[i], 0, ct_data(vec2[i].0), bits2[i], 0);
        lemma_add_noise_d(
            v,
            add_data(ct_data(vec1[i].0), ct_data(vec2[i].0)),
            bits1[i] + bits2[i],
            0,
            ct_data(one),
            1,
            0,
        );
    }
    let m = lemma_tree_exact(v, lv, ms);
    lemma_decode_noisy_d(v, s, product_tree(lv), m, 0);
    lemma_phase_is_phase_d(v, c, N_COLS - 1);
    assert((forall|i: int| 0 <= i < vec1.len() ==> #[trigger] bits1[i] == bits2[i]) <==> (forall|i: int|
        0 <= i < lv.len() ==> #[trigger] ms[i] % 2 == 1)) by {
        assert forall|i: int| 0 <= i < vec1.len() implies (#[trigger] bits1[i] == bits2[i]) <==> ms[i] % 2 == 1 by {
            assert(bits1[i] == 0 || bits1[i] == 1);
            assert(bits2[i] == 0 || bits2[i] == 1);
        }
    }
}

} // verus!
