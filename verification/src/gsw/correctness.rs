//! What the scheme promises: decryption inverts encryption, and homomorphic
//! addition acts on the messages.
use vstd::prelude::*;
use vstd::arithmetic::div_mod::*;
use vstd::arithmetic::mul::*;
use vstd::arithmetic::power2::*;
use crate::arith::{
    abs, sum, lemma_sum_ext, lemma_sum_add, lemma_sum_scale, lemma_sum_mod, lemma_sum_bound,
    lemma_sum_swap, lemma_sum_single, lemma_bits_rebuild,
};
use crate::matrix::{Matrix, dot};
use crate::params::gsw::{N_LWE, Q, L, N_COLS, M};
use super::gadget::{gadget_entry, ginv_entry};
use super::equality::{
    lemma_noisy_from_matrix, lemma_noisy_to_matrix, lemma_add_noise_d, lemma_mul_noise_d, lemma_decode_noisy_d,
    lemma_phase_is_phase_d, lemma_sum_data, lemma_product_data,
};
use super::{
    is_gsw_secret, lwe_relation, lwe_dot, is_gsw_keypair, enc_relation, is_gsw_encryption, phase,
    decode_bit, decode_int, gsw_decrypt_spec, gsw_decrypt_integer_spec, decryptable,
    tabs_dot, half_q, ct_data,
};

verus! {

/// `sum_k v[k] G[k][j]`: what the gadget contributes to the phase of column `j`.
pub open spec fn v_gadget(v: Matrix, j: int) -> int {
    sum(|k: int| v.at(k, 0) * gadget_entry(k, j), (N_LWE + 1) as nat)
}

/// `sum_l e[l] R[l][j]`: the noise in the phase of column `j`.
pub open spec fn noise(e: Seq<int>, r: Matrix, j: int) -> int {
    sum(|l: int| e[l] * r.at(l, j), M as nat)
}

/// `c` is the entrywise sum of `c1` and `c2` modulo `q`.
pub open spec fn is_sum_mod_q(c: Matrix, c1: Matrix, c2: Matrix) -> bool {
    &&& c.rows == c1.rows
    &&& c.rows == c2.rows
    &&& c.cols == c1.cols
    &&& c.cols == c2.cols
    &&& forall|i: int, j: int|
        0 <= i < c.rows && 0 <= j < c.cols ==> #[trigger] c.at(i, j) == (c1.at(i, j) + c2.at(i, j))
            % (Q as int)
}

/// The secret vector times the public matrix is the noise: `v^T A = e (mod q)`.
proof fn lemma_secret_times_public(v: Matrix, a: Matrix, s: Seq<int>, e: Seq<int>, l: int)
    requires
        is_gsw_secret(v, s),
        lwe_relation(a, s, e),
        0 <= l < M,
    ensures
        sum(|k: int| v.at(k, 0) * a.at(k, l), (N_LWE + 1) as nat) % (Q as int) == e[l] % (Q as int),
{
    let q = Q as int;
    let f = |k: int| v.at(k, 0) * a.at(k, l);
    let x = lwe_dot(s, a, l);
    // the first N_LWE terms are congruent to -x
    let g = |k: int| -1 * (s[k] * a.at(k, l));
    assert forall|k: int| 0 <= k < N_LWE implies #[trigger] f(k) % q == g(k) % q by {
        lemma_mul_mod_noop_left(-s[k], a.at(k, l), q);
        assert((-s[k]) * a.at(k, l) == -1 * (s[k] * a.at(k, l))) by (nonlinear_arith);
    }
    lemma_sum_mod(f, g, N_LWE as nat, q);
    lemma_sum_scale(|k: int| s[k] * a.at(k, l), -1, N_LWE as nat);
    lemma_sum_ext(g, |k: int| -1 * (|k: int| s[k] * a.at(k, l))(k), N_LWE as nat);
    assert(sum(g, N_LWE as nat) == -x);
    assert(sum(f, (N_LWE + 1) as nat) == sum(f, N_LWE as nat) + f(N_LWE as int));
    assert(f(N_LWE as int) == (x + e[l]) % q);
    // sum f = (sum over the first rows) + (x + e) mod q
    lemma_add_mod_noop(sum(f, N_LWE as nat), (x + e[l]) % q, q);
    lemma_mod_twice(x + e[l], q);
    lemma_add_mod_noop(-x, x + e[l], q);
}

/// The phase of column `j` of an encryption of `m` is the noise plus `m` times the
/// gadget's contribution, modulo `q`.
proof fn lemma_phase_of_encryption(
    v: Matrix,
    a: Matrix,
    s: Seq<int>,
    e: Seq<int>,
    r: Matrix,
    m: int,
    c: Matrix,
    j: int,
)
    requires
        is_gsw_secret(v, s),
        lwe_relation(a, s, e),
        enc_relation(a, r, m, c),
        0 <= j < N_COLS,
    ensures
        phase(v, c, j) % (Q as int) == (noise(e, r, j) + m * v_gadget(v, j)) % (Q as int),
{
    let q = Q as int;
    let n5 = (N_LWE + 1) as nat;
    let d = |k: int| dot(a, r, k, j, M as nat);
    let f = |k: int| v.at(k, 0) * c.at(k, j);
    let g = |k: int| v.at(k, 0) * (d(k) + m * gadget_entry(k, j));
    // (1) reduce modulo q inside the sum
    assert forall|k: int| 0 <= k < n5 implies #[trigger] f(k) % q == g(k) % q by {
        lemma_mul_mod_noop_right(v.at(k, 0), d(k) + m * gadget_entry(k, j), q);
    }
    lemma_sum_mod(f, g, n5, q);
    // (2) split the sum
    let g1 = |k: int| v.at(k, 0) * d(k);
    let g2 = |k: int| v.at(k, 0) * gadget_entry(k, j);
    assert forall|k: int| 0 <= k < n5 implies #[trigger] g(k) == g1(k) + m * g2(k) by {
        let x = v.at(k, 0);
        let y = d(k);
        let z = gadget_entry(k, j);
        assert(x * (y + m * z) == x * y + m * (x * z)) by (nonlinear_arith);
    }
    lemma_sum_ext(g, |k: int| g1(k) + (|k: int| m * g2(k))(k), n5);
    lemma_sum_add(g1, |k: int| m * g2(k), n5);
    lemma_sum_scale(g2, m, n5);
    assert(sum(g, n5) == sum(g1, n5) + m * v_gadget(v, j));
    // (3) exchange the double sum
    let h = |k: int, l: int| v.at(k, 0) * (a.at(k, l) * r.at(l, j));
    assert forall|k: int| 0 <= k < n5 implies #[trigger] g1(k) == sum(|l: int| h(k, l), M as nat) by {
        lemma_sum_scale(|l: int| a.at(k, l) * r.at(l, j), v.at(k, 0), M as nat);
        lemma_sum_ext(
            |l: int| v.at(k, 0) * (|l: int| a.at(k, l) * r.at(l, j))(l),
            |l: int| h(k, l),
            M as nat,
        );
    }
    lemma_sum_ext(g1, |k: int| sum(|l: int| h(k, l), M as nat), n5);
    lemma_sum_swap(h, n5, M as nat);
    let w = |l: int| sum(|k: int| v.at(k, 0) * a.at(k, l), n5);
    assert forall|l: int| 0 <= l < M implies sum(|k: int| h(k, l), n5) == w(l) * #[trigger] r.at(
        l,
        j,
    ) by {
        assert forall|k: int| 0 <= k < n5 implies #[trigger] h(k, l) == r.at(l, j) * (v.at(k, 0)
            * a.at(k, l)) by {
            let x = v.at(k, 0);
            let y = a.at(k, l);
            let z = r.at(l, j);
            assert(x * (y * z) == z * (x * y)) by (nonlinear_arith);
        }
        lemma_sum_ext(
            |k: int| h(k, l),
            |k: int| r.at(l, j) * (|k: int| v.at(k, 0) * a.at(k, l))(k),
            n5,
        );
        lemma_sum_scale(|k: int| v.at(k, 0) * a.at(k, l), r.at(l, j), n5);
        lemma_mul_is_commutative(r.at(l, j), w(l));
    }
    lemma_sum_ext(
        |l: int| sum(|k: int| h(k, l), n5),
        |l: int| w(l) * r.at(l, j),
        M as nat,
    );
    // (4) replace v^T A by the noise modulo q
    assert forall|l: int| 0 <= l < M implies #[trigger] (w(l) * r.at(l, j)) % q == (e[l] * r.at(l, j))
        % q by {
        lemma_secret_times_public(v, a, s, e, l);
        lemma_mul_mod_noop_left(w(l), r.at(l, j), q);
        lemma_mul_mod_noop_left(e[l], r.at(l, j), q);
    }
    lemma_sum_mod(|l: int| w(l) * r.at(l, j), |l: int| e[l] * r.at(l, j), M as nat, q);
    // (5) put the pieces together
    let x1 = sum(g1, n5);
    assert(x1 == sum(|l: int| w(l) * r.at(l, j), M as nat));
    lemma_add_mod_noop(x1, m * v_gadget(v, j), q);
    lemma_add_mod_noop(noise(e, r, j), m * v_gadget(v, j), q);
}

/// The gadget contributes `v[n] 2^(j - nL)` to the phase of a column `j` of the
/// last block.
pub(crate) proof fn lemma_v_gadget_last_block(v: Matrix, s: Seq<int>, j: int)
    requires
        is_gsw_secret(v, s),
        N_LWE * L <= j < N_COLS,
    ensures
        v_gadget(v, j) == pow2((j - N_LWE * L) as nat),
{
    let f = |k: int| v.at(k, 0) * gadget_entry(k, j);
    assert forall|k: int| 0 <= k < N_LWE + 1 && k != N_LWE implies #[trigger] f(k) == 0 by {
        assert(gadget_entry(k, j) == 0);
    }
    lemma_sum_single(f, (N_LWE + 1) as nat, N_LWE as int);
}

/// The noise of a fresh encryption has magnitude at most `M`.
proof fn lemma_noise_bound(e: Seq<int>, r: Matrix, j: int)
    requires
        e.len() == M,
        forall|l: int| 0 <= l < M ==> -1 <= #[trigger] e[l] <= 1,
        r.rows == M,
        0 <= j < r.cols,
        r.within(0, 1),
    ensures
        abs(noise(e, r, j)) <= M,
{
    let f = |l: int| e[l] * r.at(l, j);
    assert forall|l: int| 0 <= l < M implies abs(#[trigger] f(l)) <= 1 by {
        let x = e[l];
        let y = r.at(l, j);
        assert(-1 <= x * y <= 1) by (nonlinear_arith)
            requires
                -1 <= x <= 1,
                0 <= y <= 1,
        ;
    }
    lemma_sum_bound(f, M as nat, 1);
}

/// The phase of an encryption of `m` at column `j` of the last block is a small
/// noise plus `m 2^(j - nL)`, modulo `q`.
proof fn lemma_phase_last_block(v: Matrix, a: Matrix, m: int, c: Matrix, j: int) -> (noise_val: int)
    requires
        is_gsw_keypair(v, a),
        is_gsw_encryption(a, m, c),
        N_LWE * L <= j < N_COLS,
    ensures
        abs(noise_val) <= M,
        phase(v, c, j) % (Q as int) == (noise_val + m * pow2((j - N_LWE * L) as nat)) % (Q as int),
{
    let (s, e) = choose|s: Seq<int>, e: Seq<int>| is_gsw_secret(v, s) && #[trigger] lwe_relation(a, s, e);
    let r = choose|r: Matrix| r.within(0, 1) && #[trigger] enc_relation(a, r, m, c);
    lemma_phase_of_encryption(v, a, s, e, r, m, c, j);
    lemma_v_gadget_last_block(v, s, j);
    lemma_noise_bound(e, r, j);
    noise(e, r, j)
}

/// A phase `x + m q/2` with small `x` decodes to the bit `m mod 2`.
proof fn lemma_decode_bit(x: int, m: int)
    requires
        abs(x) <= 4 * (M as int),
        0 <= m <= 2,
    ensures
        decode_bit((x + m * 8388608) % (Q as int)) == m % 2,
{
    let q = Q as int;
    let y = x + m * 8388608;
    if m == 2 {
        assert(y % q == (x + q) % q);
        lemma_mod_add_multiples_vanish(x, q);
    }
    let r = y % q;
    let z = if m == 2 { x } else { y };
    assert(r == z % q);
    if z >= 0 {
        lemma_small_mod(z as nat, q as nat);
    } else {
        lemma_mod_add_multiples_vanish(z, q);
        lemma_small_mod((z + q) as nat, q as nat);
    }
}

/// Decryption inverts encryption: for a key pair `(v, a)` and an encryption `c`
/// of a bit `m` under `a`, decryption under `v` gives `m` back.
pub proof fn gsw_decrypt_inverts_encrypt(v: Matrix, a: Matrix, m: int, c: Matrix)
    requires
        is_gsw_keypair(v, a),
        m == 0 || m == 1,
        is_gsw_encryption(a, m, c),
    ensures
        gsw_decrypt_spec(v, c) == m,
{
    let x = lemma_phase_last_block(v, a, m, c, N_COLS - 1);
    lemma2_to64();
    lemma_decode_bit(x, m);
}

/// The phase is additive modulo `q` over entrywise sums modulo `q`.
proof fn lemma_phase_add(v: Matrix, c: Matrix, c1: Matrix, c2: Matrix, j: int)
    requires
        is_sum_mod_q(c, c1, c2),
        v.rows == c.rows,
        0 <= j < c.cols,
    ensures
        phase(v, c, j) % (Q as int) == (phase(v, c1, j) + phase(v, c2, j)) % (Q as int),
{
    let q = Q as int;
    let n = v.rows as nat;
    let f = |k: int| v.at(k, 0) * c.at(k, j);
    let g = |k: int| v.at(k, 0) * c1.at(k, j) + v.at(k, 0) * c2.at(k, j);
    assert forall|k: int| 0 <= k < n implies #[trigger] f(k) % q == g(k) % q by {
        lemma_mul_mod_noop_right(v.at(k, 0), c1.at(k, j) + c2.at(k, j), q);
        lemma_mul_is_distributive_add(v.at(k, 0), c1.at(k, j), c2.at(k, j));
    }
    lemma_sum_mod(f, g, n, q);
    lemma_sum_ext(
        g,
        |k: int| (|k: int| v.at(k, 0) * c1.at(k, j))(k) + (|k: int| v.at(k, 0) * c2.at(k, j))(k),
        n,
    );
    lemma_sum_add(|k: int| v.at(k, 0) * c1.at(k, j), |k: int| v.at(k, 0) * c2.at(k, j), n);
}

/// Homomorphic addition is XOR: decrypting the entrywise sum modulo `q` of
/// encryptions of bits `m1` and `m2` gives `m1 XOR m2`.
pub proof fn gsw_add_is_xor(v: Matrix, a: Matrix, m1: int, m2: int, c1: Matrix, c2: Matrix, c: Matrix)
    requires
        is_gsw_keypair(v, a),
        m1 == 0 || m1 == 1,
        m2 == 0 || m2 == 1,
        is_gsw_encryption(a, m1, c1),
        is_gsw_encryption(a, m2, c2),
        is_sum_mod_q(c, c1, c2),
    ensures
        gsw_decrypt_spec(v, c) == (if m1 == m2 { 0int } else { 1int }),
{
    let q = Q as int;
    let j = N_COLS - 1;
    let x1 = lemma_phase_last_block(v, a, m1, c1, j);
    let x2 = lemma_phase_last_block(v, a, m2, c2, j);
    lemma2_to64();
    let (s, e) = choose|s: Seq<int>, e: Seq<int>| is_gsw_secret(v, s) && #[trigger] lwe_relation(a, s, e);
    lemma_phase_add(v, c, c1, c2, j);
    let p1 = phase(v, c1, j);
    let p2 = phase(v, c2, j);
    lemma_add_mod_noop(p1, p2, q);
    lemma_add_mod_noop(x1 + m1 * 8388608, x2 + m2 * 8388608, q);
    assert(phase(v, c, j) % q == ((x1 + x2) + (m1 + m2) * 8388608) % q);
    lemma_decode_bit(x1 + x2, m1 + m2);
}

/// A phase `x + m 2^14` with small noise `x` and `|m| < 2^9` decodes to `m`.
proof fn lemma_decode_int(x: int, m: int)
    requires
        abs(x) <= 4 * (M as int),
        -512 < m < 512,
    ensures
        decode_int((x + m * 16384) % (Q as int)) == m,
{
    let q = Q as int;
    let y = x + m * 16384;
    assert(-8388608 < y < 8388608);
    if y >= 0 {
        lemma_small_mod(y as nat, q as nat);
        assert((y + 8192) / 16384 == m) by (nonlinear_arith)
            requires
                y == x + m * 16384,
                -100 <= x <= 100,
                y >= 0,
        {
            lemma_fundamental_div_mod_converse(y + 8192, 16384, m, x + 8192);
        }
    } else {
        lemma_mod_add_multiples_vanish(y, q);
        lemma_small_mod((y + q) as nat, q as nat);
        assert(-((-y + 8192) / 16384) == m) by (nonlinear_arith)
            requires
                y == x + m * 16384,
                -100 <= x <= 100,
                y < 0,
        {
            lemma_fundamental_div_mod_converse(-y + 8192, 16384, -m, 8192 - x);
        }
    }
}

/// Integer decryption inverts integer encryption for `|m| < 2^9`, the integers
/// whose scaled value `m 2^14` stays below `q / 2` in magnitude.
pub proof fn gsw_decrypt_integer_inverts_encrypt(v: Matrix, a: Matrix, m: int, c: Matrix)
    requires
        is_gsw_keypair(v, a),
        -512 < m < 512,
        is_gsw_encryption(a, m, c),
    ensures
        gsw_decrypt_integer_spec(v, c) == m,
{
    let x = lemma_phase_last_block(v, a, m, c, (N_LWE * L + 14) as int);
    lemma2_to64();
    lemma_decode_int(x, m);
}

/// Homomorphic integer addition adds: decrypting the entrywise sum modulo `q` of
/// encryptions of `m1` and `m2` gives `m1 + m2` when `|m1 + m2| < 2^9`.
pub proof fn gsw_add_int_adds(v: Matrix, a: Matrix, m1: int, m2: int, c1: Matrix, c2: Matrix, c: Matrix)
    requires
        is_gsw_keypair(v, a),
        -512 < m1 + m2 < 512,
        is_gsw_encryption(a, m1, c1),
        is_gsw_encryption(a, m2, c2),
        is_sum_mod_q(c, c1, c2),
    ensures
        gsw_decrypt_integer_spec(v, c) == m1 + m2,
{
    let q = Q as int;
    let j = (N_LWE * L + 14) as int;
    let x1 = lemma_phase_last_block(v, a, m1, c1, j);
    let x2 = lemma_phase_last_block(v, a, m2, c2, j);
    lemma2_to64();
    lemma_phase_add(v, c, c1, c2, j);
    let p1 = phase(v, c1, j);
    let p2 = phase(v, c2, j);
    lemma_add_mod_noop(p1, p2, q);
    lemma_add_mod_noop(x1 + m1 * 16384, x2 + m2 * 16384, q);
    assert(phase(v, c, j) % q == ((x1 + x2) + (m1 + m2) * 16384) % q);
    lemma_decode_int(x1 + x2, m1 + m2);
}

/// Ciphertexts with entries in `[0, q)` of the shape `(n + 1) x N_COLS` can be
/// decrypted under the secret vector of a key pair without overflow.
pub proof fn gsw_ciphertext_decryptable(v: Matrix, a: Matrix, c: Matrix)
    requires
        is_gsw_keypair(v, a),
        c.wf(),
        c.rows == N_LWE + 1,
        c.cols == N_COLS,
        c.within(0, Q - 1),
    ensures
        decryptable(v, c),
{
    let (s, e) = choose|s: Seq<int>, e: Seq<int>| is_gsw_secret(v, s) && #[trigger] lwe_relation(a, s, e);
    assert forall|i: int, j: int| 0 <= i < v.cols && 0 <= j < c.cols implies #[trigger] tabs_dot(
        v,
        c,
        i,
        j,
    ) <= i64::MAX by {
        let f = |k: int| abs(v.at(k, i) * c.at(k, j));
        assert forall|k: int| 0 <= k < N_LWE + 1 implies abs(#[trigger] f(k)) <= Q * Q by {
            let x = v.at(k, i);
            let y = c.at(k, j);
            assert(0 <= x < Q);
            assert(0 <= x * y <= Q * Q) by (nonlinear_arith)
                requires
                    0 <= x < Q,
                    0 <= y < Q,
            ;
        }
        lemma_sum_bound(f, (N_LWE + 1) as nat, Q * Q);
    }
}

/// A sum whose terms vanish outside `[start, start + len)` is the sum over that
/// block.
pub(crate) proof fn lemma_sum_block(f: spec_fn(int) -> int, n: nat, start: nat, len: nat)
    requires
        start + len <= n,
        forall|t: int| 0 <= t < n && !(start <= t < start + len) ==> #[trigger] f(t) == 0,
    ensures
        sum(f, n) == sum(|l: int| f(start + l), len),
    decreases n,
{
    if n == 0 {
    } else if n > start + len {
        lemma_sum_block(f, (n - 1) as nat, start, len);
    } else {
        // n == start + len; peel off the block from the top
        lemma_sum_block_prefix(f, start, len);
    }
}

/// `sum(f, start + len)` is the block sum when `f` vanishes below `start`.
proof fn lemma_sum_block_prefix(f: spec_fn(int) -> int, start: nat, len: nat)
    requires
        forall|t: int| 0 <= t < start ==> #[trigger] f(t) == 0,
    ensures
        sum(f, start + len) == sum(|l: int| f(start + l), len),
    decreases len,
{
    if len == 0 {
        crate::arith::lemma_sum_zero(f, start);
    } else {
        lemma_sum_block_prefix(f, start, (len - 1) as nat);
    }
}

/// The gadget matrix recomposes the bit decomposition: `G G^-1(C) = C mod q`
/// entry by entry.
pub proof fn gsw_gadget_recomposes(c: Matrix, k: int, j: int)
    requires
        c.wf(),
        c.rows >= N_LWE + 1,
        c.cols >= N_COLS,
        0 <= k < N_LWE + 1,
        0 <= j < N_COLS,
    ensures
        sum(|t: int| gadget_entry(k, t) * ginv_entry(c, t, j), N_COLS as nat) == c.at(k, j) % (Q as int),
{
    let f = |t: int| gadget_entry(k, t) * ginv_entry(c, t, j);
    let x = c.at(k, j) % (Q as int);
    let start = (L * k) as nat;
    assert forall|t: int| 0 <= t < N_COLS && !(start <= t < start + L) implies #[trigger] f(t) == 0 by {}
    lemma_sum_block(f, N_COLS as nat, start, L as nat);
    assert forall|l: int| 0 <= l < L implies #[trigger] f(start + l) == (pow2(l as nat) as int) * ((x / (
    pow2(l as nat) as int)) % 2) by {
        assert((start + l) / (L as int) == k);
        assert((start + l) % (L as int) == l);
    }
    lemma_sum_ext(
        |l: int| f(start + l),
        |l: int| (pow2(l as nat) as int) * ((x / (pow2(l as nat) as int)) % 2),
        L as nat,
    );
    lemma_bits_rebuild(x, L as nat);
    lemma2_to64();
    lemma_small_mod(x as nat, pow2(24) as nat);
}

/// The bit decomposition holds only bits.
pub proof fn gsw_g_inverse_is_binary(c: Matrix, r: int, j: int)
    ensures
        0 <= ginv_entry(c, r, j) <= 1,
{
}

/// A value of `[0, q)` moved into `(-q/2, q/2]`.
pub open spec fn centered(y: int) -> int {
    if y > half_q() { y - Q } else { y }
}

/// The noise of column `t` of `c` as an encryption of `m` under `v`: the phase
/// minus `m v^T G`, centred modulo `q`.
pub open spec fn phase_noise(v: Matrix, c: Matrix, m: int, t: int) -> int {
    centered((phase(v, c, t) - m * v_gadget(v, t)) % (Q as int))
}

/// `c` is a reduced ciphertext encrypting `m` under `v` with noise at most `b` in
/// every column.
pub open spec fn is_noisy_encryption(v: Matrix, c: Matrix, m: int, b: int) -> bool {
    &&& c.wf()
    &&& c.rows == N_LWE + 1
    &&& c.cols == N_COLS
    &&& c.within(0, Q - 1)
    &&& forall|t: int| 0 <= t < N_COLS ==> abs(#[trigger] phase_noise(v, c, m, t)) <= b
}

/// A small value is its own centred residue.
pub(crate) proof fn lemma_centered_small(x: int)
    requires
        abs(x) < 8388608,
    ensures
        centered(x % (Q as int)) == x,
{
    let q = Q as int;
    if x >= 0 {
        lemma_small_mod(x as nat, q as nat);
    } else {
        lemma_mod_add_multiples_vanish(x, q);
        lemma_small_mod((x + q) as nat, q as nat);
    }
}

/// The phase is the noise plus `m v^T G`, modulo `q`.
proof fn lemma_phase_from_noise(v: Matrix, c: Matrix, m: int, t: int)
    ensures
        phase(v, c, t) % (Q as int) == (phase_noise(v, c, m, t) + m * v_gadget(v, t)) % (Q as int),
{
    let q = Q as int;
    let p = phase(v, c, t);
    let g = m * v_gadget(v, t);
    let y = (p - g) % q;
    // centered(y) = y or y - q, both congruent to p - g
    if y > half_q() {
        lemma_mod_sub_multiples_vanish(y, q);
    }
    assert(phase_noise(v, c, m, t) % q == y % q);
    lemma_mod_twice(p - g, q);
    lemma_add_mod_noop(phase_noise(v, c, m, t), g, q);
    lemma_add_mod_noop(p - g, g, q);
}

/// A fresh encryption has noise at most `M` in every column.
pub proof fn gsw_fresh_encryption_noise(v: Matrix, a: Matrix, m: int, c: Matrix)
    requires
        is_gsw_keypair(v, a),
        is_gsw_encryption(a, m, c),
    ensures
        is_noisy_encryption(v, c, m, M as int),
{
    let (s, e) = choose|s: Seq<int>, e: Seq<int>| is_gsw_secret(v, s) && #[trigger] lwe_relation(a, s, e);
    let r = choose|r: Matrix| r.within(0, 1) && #[trigger] enc_relation(a, r, m, c);
    let q = Q as int;
    assert forall|t: int| 0 <= t < N_COLS implies abs(#[trigger] phase_noise(v, c, m, t)) <= M by {
        lemma_phase_of_encryption(v, a, s, e, r, m, c, t);
        lemma_noise_bound(e, r, t);
        let x = noise(e, r, t);
        let g = m * v_gadget(v, t);
        lemma_mod_sub_eq(phase(v, c, t), x + g, g, q);
        lemma_centered_small(x);
    }
    assert forall|i: int, j: int| 0 <= i < c.rows && 0 <= j < c.cols implies 0 <= #[trigger] c.at(i, j) <= Q - 1 by {}
}

/// `p = y (mod q)` implies `p - g = y - g (mod q)`.
pub(crate) proof fn lemma_mod_sub_eq(p: int, y: int, g: int, q: int)
    requires
        q > 0,
        p % q == y % q,
    ensures
        (p - g) % q == (y - g) % q,
{
    lemma_sub_mod_noop(p, g, q);
    lemma_sub_mod_noop(y, g, q);
}

/// Adding ciphertexts adds messages and noise bounds.
pub proof fn gsw_add_noise(v: Matrix, c1: Matrix, m1: int, b1: int, c2: Matrix, m2: int, b2: int, c: Matrix)
    requires
        v.rows == N_LWE + 1,
        is_noisy_encryption(v, c1, m1, b1),
        is_noisy_encryption(v, c2, m2, b2),
        is_sum_mod_q(c, c1, c2),
        c.wf(),
        b1 + b2 < 8388608,
    ensures
        is_noisy_encryption(v, c, m1 + m2, b1 + b2),
{
    lemma_noisy_from_matrix(v, c1, m1, b1);
    lemma_noisy_from_matrix(v, c2, m2, b2);
    lemma_add_noise_d(v, ct_data(c1), m1, b1, ct_data(c2), m2, b2);
    lemma_sum_data(c, c1, c2);
    lemma_noisy_to_matrix(v, c, m1 + m2, b1 + b2);
}

/// `c = C1 G^-1(C2) mod q`, entry by entry.
pub open spec fn is_product_mod_q(c: Matrix, c1: Matrix, c2: Matrix) -> bool {
    &&& c.wf()
    &&& c.rows == c1.rows
    &&& c.cols == N_COLS
    &&& forall|i: int, j: int|
        0 <= i < c1.rows && 0 <= j < N_COLS ==> #[trigger] c.at(i, j) == super::hmul_entry(c1, c2, i, j)
}

/// Multiplying ciphertexts multiplies messages; the noise grows to
/// `N_COLS b1 + |m1| b2`.
pub proof fn gsw_mul_noise(
    v: Matrix,
    s: Seq<int>,
    c1: Matrix,
    m1: int,
    b1: int,
    c2: Matrix,
    m2: int,
    b2: int,
    c: Matrix,
)
    requires
        is_gsw_secret(v, s),
        is_noisy_encryption(v, c1, m1, b1),
        is_noisy_encryption(v, c2, m2, b2),
        is_product_mod_q(c, c1, c2),
        (N_COLS as int) * b1 + abs(m1) * b2 < 8388608,
    ensures
        is_noisy_encryption(v, c, m1 * m2, (N_COLS as int) * b1 + abs(m1) * b2),
{
    lemma_noisy_from_matrix(v, c1, m1, b1);
    lemma_noisy_from_matrix(v, c2, m2, b2);
    lemma_mul_noise_d(v, ct_data(c1), m1, b1, ct_data(c2), m2, b2);
    lemma_product_data(c, c1, c2);
    lemma_noisy_to_matrix(v, c, m1 * m2, (N_COLS as int) * b1 + abs(m1) * b2);
}

/// Decryption of a ciphertext with noise below `q / 4` gives its message modulo 2.
pub proof fn gsw_decrypt_noisy(v: Matrix, s: Seq<int>, c: Matrix, m: int, b: int)
    requires
        is_gsw_secret(v, s),
        is_noisy_encryption(v, c, m, b),
        b < 4194304,
    ensures
        gsw_decrypt_spec(v, c) == m % 2,
{
    lemma_noisy_from_matrix(v, c, m, b);
    lemma_decode_noisy_d(v, s, ct_data(c), m, b);
    lemma_phase_is_phase_d(v, c, N_COLS - 1);
}

/// A phase `x + m q/2` with `|x| < q/4` decodes to the bit `m`.
pub(crate) proof fn lemma_decode_bit_wide(x: int, m: int)
    requires
        abs(x) < 4194304,
        0 <= m <= 1,
    ensures
        decode_bit((x + m * 8388608) % (Q as int)) == m,
{
    let q = Q as int;
    let y = x + m * 8388608;
    if y >= 0 {
        lemma_small_mod(y as nat, q as nat);
    } else {
        lemma_mod_add_multiples_vanish(y, q);
        lemma_small_mod((y + q) as nat, q as nat);
    }
}

/// Homomorphic multiplication is AND: decrypting `C1 G^-1(C2) mod q` for
/// encryptions of bits `m1` and `m2` gives `m1 AND m2`.
pub proof fn gsw_mul_is_and(v: Matrix, a: Matrix, m1: int, m2: int, c1: Matrix, c2: Matrix, c: Matrix)
    requires
        is_gsw_keypair(v, a),
        m1 == 0 || m1 == 1,
        m2 == 0 || m2 == 1,
        is_gsw_encryption(a, m1, c1),
        is_gsw_encryption(a, m2, c2),
        is_product_mod_q(c, c1, c2),
    ensures
        gsw_decrypt_spec(v, c) == m1 * m2,
{
    let (s, e) = choose|s: Seq<int>, e: Seq<int>| is_gsw_secret(v, s) && #[trigger] lwe_relation(a, s, e);
    gsw_fresh_encryption_noise(v, a, m1, c1);
    gsw_fresh_encryption_noise(v, a, m2, c2);
    gsw_mul_noise(v, s, c1, m1, M as int, c2, m2, M as int, c);
    gsw_decrypt_noisy(v, s, c, m1 * m2, (N_COLS as int) * (M as int) + abs(m1) * (M as int));
}

/// Integer decryption of a ciphertext of `m`, `|m| < 2^9`, with noise below
/// `2^13` gives `m`.
pub proof fn gsw_decrypt_integer_noisy(v: Matrix, s: Seq<int>, c: Matrix, m: int, b: int)
    requires
        is_gsw_secret(v, s),
        is_noisy_encryption(v, c, m, b),
        b < 8192,
        -512 < m < 512,
    ensures
        gsw_decrypt_integer_spec(v, c) == m,
{
    let j = (N_LWE * L + 14) as int;
    lemma_phase_from_noise(v, c, m, j);
    lemma_v_gadget_last_block(v, s, j);
    lemma2_to64();
    lemma_decode_int_wide(phase_noise(v, c, m, j), m);
}

/// A phase `x + m 2^14` with `|x| < 2^13` and `|m| < 2^9` decodes to `m`.
proof fn lemma_decode_int_wide(x: int, m: int)
    requires
        abs(x) < 8192,
        -512 < m < 512,
    ensures
        decode_int((x + m * 16384) % (Q as int)) == m,
{
    let q = Q as int;
    let y = x + m * 16384;
    assert(-8388608 < y < 8388608);
    if y >= 0 {
        lemma_small_mod(y as nat, q as nat);
        lemma_fundamental_div_mod_converse(y + 8192, 16384, m, x + 8192);
    } else {
        lemma_mod_add_multiples_vanish(y, q);
        lemma_small_mod((y + q) as nat, q as nat);
        lemma_fundamental_div_mod_converse(-y + 8192, 16384, -m, 8192 - x);
    }
}

/// Homomorphic integer multiplication multiplies: decrypting `C1 G^-1(C2) mod q`
/// for encryptions of `m1` and `m2` gives `m1 m2` when `|m1| <= 207` (so that the
/// noise `N_COLS M + |m1| M` stays below `2^13`) and `|m1 m2| < 2^9`.
pub proof fn gsw_mul_int_multiplies(v: Matrix, a: Matrix, m1: int, m2: int, c1: Matrix, c2: Matrix, c: Matrix)
    requires
        is_gsw_keypair(v, a),
        -207 <= m1 <= 207,
        -512 < m1 * m2 < 512,
        is_gsw_encryption(a, m1, c1),
        is_gsw_encryption(a, m2, c2),
        is_product_mod_q(c, c1, c2),
    ensures
        gsw_decrypt_integer_spec(v, c) == m1 * m2,
{
    let (s, e) = choose|s: Seq<int>, e: Seq<int>| is_gsw_secret(v, s) && #[trigger] lwe_relation(a, s, e);
    gsw_fresh_encryption_noise(v, a, m1, c1);
    gsw_fresh_encryption_noise(v, a, m2, c2);
    gsw_mul_noise(v, s, c1, m1, M as int, c2, m2, M as int, c);
    gsw_decrypt_integer_noisy(v, s, c, m1 * m2, (N_COLS as int) * (M as int) + abs(m1) * (M as int));
}

} // verus!
