//! What the Ring-GSW scheme promises: decryption inverts encryption, for bits,
//! small integers and polynomials.
use vstd::prelude::*;
use vstd::arithmetic::div_mod::*;
use vstd::arithmetic::mul::*;
use vstd::arithmetic::power2::*;
use crate::arith::{
    abs, sum, lemma_sum_ext, lemma_sum_add, lemma_sum_scale, lemma_sum_mod, lemma_sum_bound, lemma_sum_split,
    lemma_bits_rebuild,
};
use crate::params::rgsw::{N, Q, L, M};
use super::poly::{lemma_rm_index, lemma_rm_unflat, PolyMat, pzero, pconst, padd, pmul, pm_add, pm_dot, pm_product, pm_transpose, coefs_within};
use super::ring::{
    cv, cv_term, cvf, sf, cong, fadd, fneg, fam_sum, fam_at, xshift, cv_commutes, cv_associates,
    lemma_cv_cong_left, lemma_cv_cong_right, lemma_cv_add_left, lemma_cv_neg_left, lemma_cv_const_left,
    lemma_pmul_is_cv, lemma_cv_sum_right, fscale, lemma_cv_scale_left, lemma_cv_scale_right,
};
use super::{
    is_rgsw_secret, rlwe_relation, is_rgsw_keypair, renc_relation, is_rgsw_encryption, pm_gadget,
    rphase, rdecode_bit, rdecode_int, bit_of, pm_ginv,
};

verus! {

/// The terms `(k, u) -> (a[r][k] * b[k][c])_u` of entry `(r, c)` of a product.
pub open spec fn dot_fam(a: PolyMat, b: PolyMat, r: int, c: int) -> spec_fn(int, int) -> int {
    |k: int, u: int| cv(sf(a.entry(r, k)), sf(b.entry(k, c)), u)
}

/// The accumulated product entry is, modulo `q`, the plain sum of the products.
pub proof fn lemma_pm_dot_cong(a: PolyMat, b: PolyMat, r: int, c: int, n: nat)
    ensures
        cong(sf(pm_dot(a, b, r, c, n)), fam_sum(dot_fam(a, b, r, c), n)),
    decreases n,
{
    let q = Q as int;
    if n == 0 {
        assert forall|t: int| 0 <= t < N implies #[trigger] sf(pm_dot(a, b, r, c, n))(t) % q == fam_sum(
            dot_fam(a, b, r, c),
            n,
        )(t) % q by {}
    } else {
        let n1 = (n - 1) as nat;
        lemma_pm_dot_cong(a, b, r, c, n1);
        let prev = pm_dot(a, b, r, c, n1);
        let p = pmul(a.entry(r, n1 as int), b.entry(n1 as int, c));
        assert forall|t: int| 0 <= t < N implies #[trigger] sf(pm_dot(a, b, r, c, n))(t) % q == fam_sum(
            dot_fam(a, b, r, c),
            n,
        )(t) % q by {
            let x = prev[t] as int;
            let y = cv(sf(a.entry(r, n1 as int)), sf(b.entry(n1 as int, c)), t);
            let s1 = fam_sum(dot_fam(a, b, r, c), n1)(t);
            lemma_pmul_is_cv(a.entry(r, n1 as int), b.entry(n1 as int, c), t);
            assert(p[t] as int == y % q);
            assert(sf(pm_dot(a, b, r, c, n))(t) == (x + y % q) % q);
            assert(fam_sum(dot_fam(a, b, r, c), n)(t) == s1 + y);
            assert(sf(prev)(t) % q == s1 % q);
            lemma_mod_twice(x + y % q, q);
            lemma_add_mod_noop(x, y % q, q);
            lemma_add_mod_noop(x, y, q);
            lemma_mod_twice(y, q);
            lemma_add_mod_noop(s1, y, q);
        }
    }
}

/// Congruences modulo `q` add.
pub(crate) proof fn lemma_cong_add(a1: int, b1: int, a2: int, b2: int, q: int)
    requires
        q > 0,
        a1 % q == b1 % q,
        a2 % q == b2 % q,
    ensures
        (a1 + a2) % q == (b1 + b2) % q,
{
    lemma_add_mod_noop(a1, a2, q);
    lemma_add_mod_noop(b1, b2, q);
}

/// Congruences modulo `q` negate.
pub(crate) proof fn lemma_cong_neg(a: int, b: int, q: int)
    requires
        q > 0,
        a % q == b % q,
    ensures
        (-a) % q == (-b) % q,
{
    lemma_sub_mod_noop(0, a, q);
    lemma_sub_mod_noop(0, b, q);
}

/// Entry `(k, i)` of the transpose of an `M x 2` matrix is entry `(i, k)`.
proof fn lemma_transpose_entry(a: PolyMat, k: int, i: int)
    requires
        a.rows == M,
        a.cols == 2,
        0 <= k < 2,
        0 <= i < M,
    ensures
        pm_transpose(a).entry(k, i) == a.entry(i, k),
{
    super::poly::lemma_rm_unflat(k, i, M as int);
    assert(k * M + i < 2 * M);
}

/// The noise in coefficient `t` of the phase at column `col`: `sum_i (e_i r_i)_t`.
pub open spec fn rnoise(e: Seq<Seq<i64>>, r: PolyMat, col: int, t: int) -> int {
    sum(|i: int| cv(sf(e[i]), sf(r.entry(i, col)), t), M as nat)
}

/// Row `i` of the public key turns `-s (a_i r_i) + (a_i s + e_i) r_i` into `e_i r_i`.
proof fn lemma_row_noise(a: PolyMat, s: Seq<i64>, e: Seq<Seq<i64>>, r: PolyMat, col: int, i: int, t: int)
    requires
        rlwe_relation(a, s, e),
        0 <= i < M,
        0 <= t < N,
    ensures
        (dot_fam(pm_transpose(a), r, 1, col)(i, t) - cv(sf(s), fam_at(dot_fam(pm_transpose(a), r, 0, col), i), t))
            % (Q as int) == cv(sf(e[i]), sf(r.entry(i, col)), t) % (Q as int),
{
    let q = Q as int;
    let at = pm_transpose(a);
    let a0 = sf(a.entry(i, 0));
    let a1 = sf(a.entry(i, 1));
    let ri = sf(r.entry(i, col));
    let ei = sf(e[i]);
    let ss = sf(s);
    lemma_transpose_entry(a, 0, i);
    lemma_transpose_entry(a, 1, i);
    // A_i = cv(s, a_i0 r_i) = cv(a_i0 s, r_i) (mod q)
    assert(fam_at(dot_fam(at, r, 0, col), i) =~= cvf(a0, ri));
    cv_associates(ss, a0, ri, t);
    assert(cong(cvf(ss, a0), cvf(a0, ss))) by {
        assert forall|u: int| 0 <= u < N implies #[trigger] cvf(ss, a0)(u) % q == cvf(a0, ss)(u) % q by {
            cv_commutes(ss, a0, u);
        }
    }
    lemma_cv_cong_left(cvf(ss, a0), cvf(a0, ss), ri, t);
    let x = cv(cvf(a0, ss), ri, t);
    let y = cv(ei, ri, t);
    let ai = cv(ss, fam_at(dot_fam(at, r, 0, col), i), t);
    assert(ai % q == x % q);
    // B_i = cv(a_i1, r_i) = cv(a_i0 s + e_i, r_i) = x + y (mod q)
    let bi = dot_fam(at, r, 1, col)(i, t);
    assert(bi == cv(a1, ri, t));
    assert(cong(a1, fadd(cvf(a0, ss), ei))) by {
        assert forall|u: int| 0 <= u < N implies #[trigger] a1(u) % q == fadd(cvf(a0, ss), ei)(u) % q by {
            lemma_pmul_is_cv(a.entry(i, 0), s, u);
            let w = cv(a0, ss, u);
            assert(a1(u) == (w % q + e[i][u]) % q);
            lemma_mod_twice(w % q + e[i][u], q);
            lemma_add_mod_noop(w, e[i][u] as int, q);
            lemma_add_mod_noop(w % q, e[i][u] as int, q);
            lemma_mod_twice(w, q);
        }
    }
    lemma_cv_cong_left(a1, fadd(cvf(a0, ss), ei), ri, t);
    lemma_cv_add_left(cvf(a0, ss), ei, ri, t);
    assert(bi % q == (x + y) % q);
    lemma_cong_neg(ai, x, q);
    lemma_cong_add(bi, x + y, -ai, -x, q);
}

/// Coefficient `t` of the phase at a column `col` of the second block is, modulo
/// `q`, the noise plus `2^(col - L)` times coefficient `t` of the message.
pub(crate) proof fn lemma_phase_second_block(
    v: PolyMat,
    a: PolyMat,
    s: Seq<i64>,
    e: Seq<Seq<i64>>,
    r: PolyMat,
    m: Seq<i64>,
    c: PolyMat,
    col: int,
    t: int,
)
    requires
        is_rgsw_secret(v, s),
        rlwe_relation(a, s, e),
        renc_relation(a, r, m, c),
        L <= col < 2 * L,
        0 <= t < N,
    ensures
        (rphase(v, c, col, 2)[t] as int) % (Q as int) == (rnoise(e, r, col, t) + pow2((col - L) as nat)
            * m[t]) % (Q as int),
{
    let q = Q as int;
    lemma_phase_general(v, a, s, e, r, m, c, col, t);
    let g = pm_gadget(m);
    super::poly::lemma_rm_unflat(0, col, 2 * L as int);
    super::poly::lemma_rm_unflat(1, col, 2 * L as int);
    assert(g.data[col] == pzero());
    let j = (col - L) as nat;
    assert(g.data[2 * L + col] == pmul(pconst(pow2(j) as int), m));
    let v0 = sf(v.entry(0, 0));
    let g0 = sf(g.data[col]);
    let g1 = sf(g.data[2 * L + col]);
    // v_0 times the zero entry is zero.
    assert forall|i: int| 0 <= i < N implies #[trigger] cv_term(v0, g0, t, i) == 0 by {
        if t >= i {
            assert(g0(t - i) == pzero()[t - i]);
        } else {
            assert(g0(t - i + N) == pzero()[t - i + N]);
        }
        assert(xshift(g0, i, t) == 0);
    }
    crate::arith::lemma_sum_zero(|i: int| cv_term(v0, g0, t, i), N as nat);
    // v_1 = 1 times 2^j m is 2^j m.
    lemma_cv_const_left(1, g1, t);
    lemma_pmul_is_cv(pconst(pow2(j) as int), m, t);
    lemma_cv_const_left(pow2(j) as int, sf(m), t);
    let w1 = cv(sf(v.entry(1, 0)), g1, t);
    let gm = g1(t);
    assert(gm == cv(sf(pconst(pow2(j) as int)), sf(m), t) % q);
    lemma_mod_twice(cv(sf(pconst(pow2(j) as int)), sf(m), t), q);
    let gval = pow2(j) * m[t];
    assert(w1 % q == gval % q);
    let nz = rnoise(e, r, col, t);
    assert(gadget_phase(v, m, col, t) == w1);
    lemma_cong_add(nz, nz, w1, gval, q);
}

/// `|(e r)_t| <= N` for `e` in `{-1, 0, 1}` and binary `r`.
proof fn lemma_small_product(e: Seq<i64>, r: Seq<i64>, t: int)
    requires
        coefs_within(e, -1, 1),
        coefs_within(r, 0, 1),
        0 <= t < N,
    ensures
        abs(cv(sf(e), sf(r), t)) <= N,
{
    assert forall|k: int| 0 <= k < N implies abs(#[trigger] cv_term(sf(e), sf(r), t, k)) <= 1 by {
        let y = xshift(sf(r), k, t);
        assert(-1 <= y <= 1);
        assert(abs(e[k] * y) <= 1) by (nonlinear_arith)
            requires
                -1 <= e[k] <= 1,
                -1 <= y <= 1,
        ;
    }
    lemma_sum_bound(|k: int| cv_term(sf(e), sf(r), t, k), N as nat, 1);
}

/// The noise of a fresh encryption is at most `M N = 64` in magnitude.
pub(crate) proof fn lemma_rnoise_bound(a: PolyMat, s: Seq<i64>, e: Seq<Seq<i64>>, r: PolyMat, m: Seq<i64>, c: PolyMat, col: int, t: int)
    requires
        rlwe_relation(a, s, e),
        renc_relation(a, r, m, c),
        0 <= col < 2 * L,
        0 <= t < N,
    ensures
        abs(rnoise(e, r, col, t)) <= 64,
{
    assert forall|i: int| 0 <= i < M implies abs(#[trigger] cv(sf(e[i]), sf(r.entry(i, col)), t)) <= N by {
        super::poly::lemma_rm_index(M as int, 2 * L as int, i, col);
        assert(coefs_within(r.data[i * r.cols + col], 0, 1));
        lemma_small_product(e[i], r.entry(i, col), t);
    }
    lemma_sum_bound(|i: int| cv(sf(e[i]), sf(r.entry(i, col)), t), M as nat, N as int);
}

/// A phase `x + m q/2` with `|x| < q/4` decodes to the bit `m mod 2`.
pub(crate) proof fn lemma_rdecode_bit(x: int, m: int)
    requires
        abs(x) < 8589934592,
        0 <= m <= 2,
    ensures
        rdecode_bit((x + m * 17179869184) % (Q as int)) == m % 2,
{
    let q = Q as int;
    let y = x + m * 17179869184;
    let z = if m == 2 { x } else { y };
    if m == 2 {
        lemma_mod_add_multiples_vanish(x, q);
    }
    assert(y % q == z % q);
    if z >= 0 {
        lemma_small_mod(z as nat, q as nat);
    } else {
        lemma_mod_add_multiples_vanish(z, q);
        lemma_small_mod((z + q) as nat, q as nat);
    }
}

/// A phase `x + m 2^17` with `|x| < 2^16` and `|m 2^17 + x| < q/2` decodes to `m`.
proof fn lemma_rdecode_int(x: int, m: int)
    requires
        abs(x) < 65536,
        abs(m * 131072 + x) < 17179869184,
    ensures
        rdecode_int((m * 131072 + x) % (Q as int)) == m,
{
    let q = Q as int;
    let y = m * 131072 + x;
    if y >= 0 {
        lemma_small_mod(y as nat, q as nat);
        assert(m >= 0) by (nonlinear_arith)
            requires
                y == m * 131072 + x,
                y >= 0,
                abs(x) < 65536,
        ;
        assert((y + 65536) / 131072 == m) by (nonlinear_arith)
            requires
                y == m * 131072 + x,
                abs(x) < 65536,
        ;
    } else {
        lemma_mod_add_multiples_vanish(y, q);
        lemma_small_mod((y + q) as nat, q as nat);
        assert(m <= 0) by (nonlinear_arith)
            requires
                y == m * 131072 + x,
                y < 0,
                abs(x) < 65536,
        ;
        assert((-y + 65536) / 131072 == -m) by (nonlinear_arith)
            requires
                y == m * 131072 + x,
                abs(x) < 65536,
        ;
    }
}

/// The phase of an encryption, at a column of the second block, reduced: its
/// noise is at most `64` and `ph = noise + 2^(col - L) m_t (mod q)`.
pub(crate) proof fn lemma_fresh_phase(v: PolyMat, a: PolyMat, m: Seq<i64>, c: PolyMat, col: int, t: int) -> (noise: int)
    requires
        is_rgsw_keypair(v, a),
        is_rgsw_encryption(a, m, c),
        L <= col < 2 * L,
        0 <= t < N,
    ensures
        abs(noise) <= 64,
        v.rows == 2,
        0 <= rphase(v, c, col, v.rows)[t] < Q,
        rphase(v, c, col, v.rows)[t] as int == (noise + pow2((col - L) as nat) * m[t]) % (Q as int),
{
    let (s, e) = choose|s: Seq<i64>, e: Seq<Seq<i64>>| is_rgsw_secret(v, s) && #[trigger] rlwe_relation(a, s, e);
    let r = choose|r: PolyMat| #[trigger] renc_relation(a, r, m, c);
    lemma_phase_second_block(v, a, s, e, r, m, c, col, t);
    lemma_rnoise_bound(a, s, e, r, m, c, col, t);
    let ph = rphase(v, c, col, 2)[t] as int;
    assert(0 <= ph < Q);
    lemma_small_mod(ph as nat, Q as nat);
    rnoise(e, r, col, t)
}

/// Decryption inverts encryption for packed bits: for a key pair `(v, a)` and an
/// encryption under `a` of a polynomial whose coefficients are bits, every
/// coefficient that `decrypt_poly` decodes is the bit that was encrypted.
pub proof fn rgsw_decrypt_poly_inverts_encrypt(v: PolyMat, a: PolyMat, m: Seq<i64>, c: PolyMat)
    requires
        is_rgsw_keypair(v, a),
        is_rgsw_encryption(a, m, c),
        coefs_within(m, 0, 1),
    ensures
        forall|k: int| 0 <= k < N ==> #[trigger] rdecode_bit(rphase(v, c, 2 * L - 1, v.rows)[k] as int) == m[k],
{
    assert forall|k: int| 0 <= k < N implies #[trigger] rdecode_bit(rphase(v, c, 2 * L - 1, v.rows)[k] as int)
        == m[k] by {
        let x = lemma_fresh_phase(v, a, m, c, 2 * L - 1, k);
        lemma_pow2_top();
        let mk = m[k] as int;
        lemma_scale_top(mk);
        assert(rphase(v, c, 2 * L - 1, v.rows)[k] as int == (x + mk * 17179869184) % (Q as int));
        lemma_rdecode_bit(x, mk);
    }
}

/// Decryption inverts encryption for bits: for a key pair `(v, a)` and an
/// encryption of the bit `m` under `a`, `decrypt` gives `m` back.
pub proof fn rgsw_decrypt_inverts_encrypt(v: PolyMat, a: PolyMat, m: int, c: PolyMat)
    requires
        is_rgsw_keypair(v, a),
        m == 0 || m == 1,
        is_rgsw_encryption(a, pconst(m), c),
    ensures
        rdecode_bit(rphase(v, c, 2 * L - 1, v.rows)[0] as int) == m,
{
    rgsw_decrypt_poly_inverts_encrypt(v, a, pconst(m), c);
}

/// Decryption inverts encryption for polynomials of small integers: each
/// coefficient `m_k` with `|m_k| < 2^INT_SCALE_SHIFT` is what `decrypt_integer_poly`
/// decodes at `k`.
pub proof fn rgsw_decrypt_integer_poly_inverts_encrypt(v: PolyMat, a: PolyMat, m: Seq<i64>, c: PolyMat, k: int)
    requires
        is_rgsw_keypair(v, a),
        is_rgsw_encryption(a, m, c),
        0 <= k < N,
        abs(m[k] as int) < 131072,
    ensures
        rdecode_int(rphase(v, c, L + 17, v.rows)[k] as int) == m[k],
{
    let x = lemma_fresh_phase(v, a, m, c, L + 17, k);
    lemma2_to64();
    assert(pow2(17) == 131072);
    let mk = m[k] as int;
    assert(abs(mk * 131072 + x) < 17179869184) by (nonlinear_arith)
        requires
            abs(mk) < 131072,
            abs(x) <= 64,
    ;
    assert(((L + 17) - L) as nat == 17);
    assert(pow2(((L + 17) - L) as nat) * mk == mk * 131072);
    assert(rphase(v, c, L + 17, v.rows)[k] as int == (mk * 131072 + x) % (Q as int));
    lemma_rdecode_int(x, mk);
}

/// Decryption inverts encryption for small integers: for `|m| < 2^INT_SCALE_SHIFT`,
/// `decrypt_integer` gives `m` back.
pub proof fn rgsw_decrypt_integer_inverts_encrypt(v: PolyMat, a: PolyMat, m: int, c: PolyMat)
    requires
        is_rgsw_keypair(v, a),
        abs(m) < 131072,
        is_rgsw_encryption(a, pconst(m), c),
    ensures
        rdecode_int(rphase(v, c, L + 17, v.rows)[0] as int) == m,
{
    let q = Q as int;
    let x = lemma_fresh_phase(v, a, pconst(m), c, L + 17, 0);
    lemma2_to64();
    assert(pow2(17) == 131072);
    let p0 = pconst(m)[0] as int;
    assert(p0 == m % q);
    lemma_mul_mod_noop_right(131072, m, q);
    lemma_add_mod_noop(x, 131072 * p0, q);
    lemma_add_mod_noop(x, 131072 * m, q);
    assert((x + 131072 * p0) % q == (x + 131072 * m) % q);
    assert(abs(m * 131072 + x) < 17179869184) by (nonlinear_arith)
        requires
            abs(m) < 131072,
            abs(x) <= 64,
    ;
    assert(rphase(v, c, L + 17, v.rows)[0] as int == (m * 131072 + x) % q);
    lemma_rdecode_int(x, m);
}

/// With a two-row secret, coefficient `t` of the phase at `col` is
/// `(v_0 c[0][col] + v_1 c[1][col])_t` modulo `q`.
pub(crate) proof fn lemma_rphase_two(v: PolyMat, c: PolyMat, col: int, t: int)
    requires
        0 <= t < N,
    ensures
        (rphase(v, c, col, 2)[t] as int) % (Q as int) == (cv(sf(v.entry(0, 0)), sf(c.data[col]), t) + cv(
            sf(v.entry(1, 0)),
            sf(c.data[c.cols + col]),
            t,
        )) % (Q as int),
        0 <= rphase(v, c, col, 2)[t] < Q,
{
    let q = Q as int;
    let c0 = c.data[0 * c.cols + col];
    let c1 = c.data[1 * c.cols + col];
    assert(rphase(v, c, col, 0) == pzero());
    assert(rphase(v, c, col, 1) == padd(pzero(), pmul(v.entry(0, 0), c0)));
    lemma_pmul_is_cv(v.entry(0, 0), c0, t);
    lemma_pmul_is_cv(v.entry(1, 0), c1, t);
    let p0 = cv(sf(v.entry(0, 0)), sf(c0), t);
    let p1 = cv(sf(v.entry(1, 0)), sf(c1), t);
    let r1 = rphase(v, c, col, 1)[t] as int;
    let ph = rphase(v, c, col, 2)[t] as int;
    assert(r1 == (0 + p0 % q) % q);
    assert(ph == (r1 + p1 % q) % q);
    lemma_mod_twice(p0, q);
    lemma_mod_twice(p1, q);
    lemma_mod_twice(r1 + p1 % q, q);
    lemma_cong_add(r1, p0, p1 % q, p1, q);
    assert(c0 == c.data[col]);
    assert(c1 == c.data[c.cols + col]);
}

/// `cv` is additive in its second argument.
pub(crate) proof fn lemma_cv_add_right(x: spec_fn(int) -> int, y1: spec_fn(int) -> int, y2: spec_fn(int) -> int, t: int)
    requires
        0 <= t < N,
    ensures
        cv(x, fadd(y1, y2), t) == cv(x, y1, t) + cv(x, y2, t),
{
    cv_commutes(x, fadd(y1, y2), t);
    cv_commutes(x, y1, t);
    cv_commutes(x, y2, t);
    lemma_cv_add_left(y1, y2, x, t);
}

/// One entry of an entrywise sum times `x` is, modulo `q`, the sum of the two
/// products.
pub(crate) proof fn lemma_entry_of_sum(x: spec_fn(int) -> int, c1: PolyMat, c2: PolyMat, i: int, t: int)
    requires
        0 <= t < N,
        0 <= i < c1.rows * c1.cols,
        c1.data.len() == c1.rows * c1.cols,
        c2.data.len() == c1.data.len(),
    ensures
        cv(x, sf(pm_add(c1, c2).data[i]), t) % (Q as int) == (cv(x, sf(c1.data[i]), t) + cv(
            x,
            sf(c2.data[i]),
            t,
        )) % (Q as int),
{
    let q = Q as int;
    let c = pm_add(c1, c2);
    assert(c.data[i] == padd(c1.data[i], c2.data[i]));
    assert(cong(sf(c.data[i]), fadd(sf(c1.data[i]), sf(c2.data[i])))) by {
        assert forall|u: int| 0 <= u < N implies #[trigger] sf(c.data[i])(u) % q == fadd(
            sf(c1.data[i]),
            sf(c2.data[i]),
        )(u) % q by {
            lemma_mod_twice(c1.data[i][u] + c2.data[i][u], q);
        }
    }
    lemma_cv_cong_right(x, sf(c.data[i]), fadd(sf(c1.data[i]), sf(c2.data[i])), t);
    lemma_cv_add_right(x, sf(c1.data[i]), sf(c2.data[i]), t);
}

/// The phase of an entrywise sum is, modulo `q`, the sum of the phases.
pub(crate) proof fn lemma_phase_of_sum(v: PolyMat, c1: PolyMat, c2: PolyMat, col: int, t: int)
    requires
        0 <= t < N,
        0 <= col < c1.cols,
        c1.rows == 2,
        c1.data.len() == c1.rows * c1.cols,
        c2.cols == c1.cols,
        c2.data.len() == c1.data.len(),
    ensures
        (rphase(v, pm_add(c1, c2), col, 2)[t] as int) % (Q as int) == (rphase(v, c1, col, 2)[t] as int
            + rphase(v, c2, col, 2)[t] as int) % (Q as int),
{
    let q = Q as int;
    let c = pm_add(c1, c2);
    let w = c1.cols as int;
    lemma_rphase_two(v, c, col, t);
    lemma_rphase_two(v, c1, col, t);
    lemma_rphase_two(v, c2, col, t);
    assert(col < 2 * w && w + col < 2 * w);
    lemma_entry_of_sum(sf(v.entry(0, 0)), c1, c2, 0 * w + col, t);
    lemma_entry_of_sum(sf(v.entry(1, 0)), c1, c2, 1 * w + col, t);
    let a0 = cv(sf(v.entry(0, 0)), sf(c1.data[col]), t);
    let b0 = cv(sf(v.entry(0, 0)), sf(c2.data[col]), t);
    let a1 = cv(sf(v.entry(1, 0)), sf(c1.data[w + col]), t);
    let b1 = cv(sf(v.entry(1, 0)), sf(c2.data[w + col]), t);
    assert(cv(sf(v.entry(0, 0)), sf(c.data[0 * w + col]), t) % q == (a0 + b0) % q);
    assert(cv(sf(v.entry(1, 0)), sf(c.data[1 * w + col]), t) % q == (a1 + b1) % q);
    lemma_cong_add(
        cv(sf(v.entry(0, 0)), sf(c.data[col]), t),
        a0 + b0,
        cv(sf(v.entry(1, 0)), sf(c.data[w + col]), t),
        a1 + b1,
        q,
    );
    lemma_cong_add(
        rphase(v, c1, col, 2)[t] as int,
        a0 + a1,
        rphase(v, c2, col, 2)[t] as int,
        b0 + b1,
        q,
    );
}

/// The phase of the sum of two encryptions: noise at most `128`, and
/// `ph = noise + 2^(col - L) (m1_t + m2_t) (mod q)`.
proof fn lemma_sum_phase(
    v: PolyMat,
    a: PolyMat,
    m1: Seq<i64>,
    m2: Seq<i64>,
    c1: PolyMat,
    c2: PolyMat,
    col: int,
    t: int,
) -> (noise: int)
    requires
        is_rgsw_keypair(v, a),
        is_rgsw_encryption(a, m1, c1),
        is_rgsw_encryption(a, m2, c2),
        L <= col < 2 * L,
        0 <= t < N,
    ensures
        abs(noise) <= 128,
        v.rows == 2,
        0 <= rphase(v, pm_add(c1, c2), col, v.rows)[t] < Q,
        rphase(v, pm_add(c1, c2), col, v.rows)[t] as int == (noise + pow2((col - L) as nat) * (m1[t]
            + m2[t])) % (Q as int),
{
    let q = Q as int;
    let n1 = lemma_fresh_phase(v, a, m1, c1, col, t);
    let n2 = lemma_fresh_phase(v, a, m2, c2, col, t);
    let r1 = choose|r: PolyMat| #[trigger] renc_relation(a, r, m1, c1);
    let r2 = choose|r: PolyMat| #[trigger] renc_relation(a, r, m2, c2);
    let (s, e) = choose|s: Seq<i64>, e: Seq<Seq<i64>>| is_rgsw_secret(v, s) && #[trigger] rlwe_relation(a, s, e);
    assert(c1.rows == 2 && c1.cols == 2 * L && c2.cols == 2 * L);
    assert(c1.data.len() == 4 * L) by (nonlinear_arith)
        requires
            c1.data.len() == c1.rows * c1.cols,
            c1.rows == 2,
            c1.cols == 2 * L,
    ;
    assert(c2.data.len() == 4 * L) by (nonlinear_arith)
        requires
            c2.data.len() == c2.rows * c2.cols,
            c2.rows == 2,
            c2.cols == 2 * L,
    ;
    lemma_phase_of_sum(v, c1, c2, col, t);
    let g = pow2((col - L) as nat);
    let ph = rphase(v, pm_add(c1, c2), col, 2)[t] as int;
    lemma_cong_add(
        rphase(v, c1, col, 2)[t] as int,
        n1 + g * m1[t],
        rphase(v, c2, col, 2)[t] as int,
        n2 + g * m2[t],
        q,
    );
    lemma_mod_twice(n1 + g * m1[t], q);
    lemma_mod_twice(n2 + g * m2[t], q);
    assert(g * m1[t] + g * m2[t] == g * (m1[t] + m2[t])) by (nonlinear_arith);
    lemma_small_mod(ph as nat, q as nat);
    n1 + n2
}

/// Homomorphic addition of packed bits is coefficientwise XOR: for encryptions
/// under one public key of two polynomials of bits, each coefficient that
/// `decrypt_poly` decodes from the sum is `m1_k XOR m2_k`.
pub proof fn rgsw_add_poly_is_xor(v: PolyMat, a: PolyMat, m1: Seq<i64>, m2: Seq<i64>, c1: PolyMat, c2: PolyMat)
    requires
        is_rgsw_keypair(v, a),
        is_rgsw_encryption(a, m1, c1),
        is_rgsw_encryption(a, m2, c2),
        coefs_within(m1, 0, 1),
        coefs_within(m2, 0, 1),
    ensures
        forall|k: int|
            0 <= k < N ==> #[trigger] rdecode_bit(rphase(v, pm_add(c1, c2), 2 * L - 1, v.rows)[k] as int)
                == (m1[k] + m2[k]) % 2,
{
    assert forall|k: int| 0 <= k < N implies #[trigger] rdecode_bit(
        rphase(v, pm_add(c1, c2), 2 * L - 1, v.rows)[k] as int,
    ) == (m1[k] + m2[k]) % 2 by {
        let x = lemma_sum_phase(v, a, m1, m2, c1, c2, 2 * L - 1, k);
        let mk = m1[k] + m2[k];
        lemma_scale_top(mk);
        assert(rphase(v, pm_add(c1, c2), 2 * L - 1, v.rows)[k] as int == (x + mk * 17179869184) % (Q as int));
        lemma_rdecode_bit(x, mk);
    }
}

/// Homomorphic addition of bits is XOR: `decrypt` of the sum of encryptions of
/// the bits `m1` and `m2` under one key pair gives `m1 XOR m2`.
pub proof fn rgsw_add_is_xor(v: PolyMat, a: PolyMat, m1: int, m2: int, c1: PolyMat, c2: PolyMat)
    requires
        is_rgsw_keypair(v, a),
        m1 == 0 || m1 == 1,
        m2 == 0 || m2 == 1,
        is_rgsw_encryption(a, pconst(m1), c1),
        is_rgsw_encryption(a, pconst(m2), c2),
    ensures
        rdecode_bit(rphase(v, pm_add(c1, c2), 2 * L - 1, v.rows)[0] as int) == (m1 + m2) % 2,
{
    rgsw_add_poly_is_xor(v, a, pconst(m1), pconst(m2), c1, c2);
}

/// Homomorphic addition of small integers adds them: for encryptions of `m1` and
/// `m2` with `|m1 + m2| < 2^INT_SCALE_SHIFT`, `decrypt_integer` of the sum gives
/// `m1 + m2`.
pub proof fn rgsw_add_int_adds(v: PolyMat, a: PolyMat, m1: int, m2: int, c1: PolyMat, c2: PolyMat)
    requires
        is_rgsw_keypair(v, a),
        is_rgsw_encryption(a, pconst(m1), c1),
        is_rgsw_encryption(a, pconst(m2), c2),
        abs(m1 + m2) < 131072,
    ensures
        rdecode_int(rphase(v, pm_add(c1, c2), L + 17, v.rows)[0] as int) == m1 + m2,
{
    let q = Q as int;
    let x = lemma_sum_phase(v, a, pconst(m1), pconst(m2), c1, c2, L + 17, 0);
    lemma2_to64();
    assert(((L + 17) - L) as nat == 17);
    assert(pow2(17) == 131072);
    let p1 = pconst(m1)[0] as int;
    let p2 = pconst(m2)[0] as int;
    assert(p1 == m1 % q && p2 == m2 % q);
    lemma_add_mod_noop(m1, m2, q);
    lemma_mod_twice(p1 + p2, q);
    assert((p1 + p2) % q == (m1 + m2) % q);
    lemma_mul_mod_noop_right(131072, p1 + p2, q);
    lemma_mul_mod_noop_right(131072, m1 + m2, q);
    lemma_add_mod_noop(x, 131072 * (p1 + p2), q);
    lemma_add_mod_noop(x, 131072 * (m1 + m2), q);
    assert(rphase(v, pm_add(c1, c2), L + 17, v.rows)[0] as int == ((m1 + m2) * 131072 + x) % q);
    assert(abs((m1 + m2) * 131072 + x) < 17179869184) by (nonlinear_arith)
        requires
            abs(m1 + m2) < 131072,
            abs(x) <= 128,
    ;
    lemma_rdecode_int(x, m1 + m2);
}

/// What the gadget part of an encryption of `m` adds to the phase at `col`:
/// `(v_0 G_0 + v_1 G_1)_t` for the entries `G_k` of `m G` in column `col`.
pub open spec fn gadget_phase(v: PolyMat, m: Seq<i64>, col: int, t: int) -> int {
    cv(sf(v.entry(0, 0)), sf(pm_gadget(m).data[col]), t) + cv(
        sf(v.entry(1, 0)),
        sf(pm_gadget(m).data[2 * L + col]),
        t,
    )
}

/// Coefficient `t` of the phase of an encryption at any column is, modulo `q`,
/// the noise plus what the gadget part adds.
pub(crate) proof fn lemma_phase_general(
    v: PolyMat,
    a: PolyMat,
    s: Seq<i64>,
    e: Seq<Seq<i64>>,
    r: PolyMat,
    m: Seq<i64>,
    c: PolyMat,
    col: int,
    t: int,
)
    requires
        is_rgsw_secret(v, s),
        rlwe_relation(a, s, e),
        renc_relation(a, r, m, c),
        0 <= col < 2 * L,
        0 <= t < N,
    ensures
        (rphase(v, c, col, 2)[t] as int) % (Q as int) == (rnoise(e, r, col, t) + gadget_phase(v, m, col, t))
            % (Q as int),
{
    let q = Q as int;
    let at = pm_transpose(a);
    let prod = pm_product(at, r, a.rows);
    let g = pm_gadget(m);
    let x0 = col;
    let x1 = 2 * L + col;
    super::poly::lemma_rm_unflat(0, col, 2 * L as int);
    super::poly::lemma_rm_unflat(1, col, 2 * L as int);
    assert(c.cols == 2 * L);
    assert(at.rows == 2 && r.cols == 2 * L);
    assert(prod.data.len() == 4 * L) by (nonlinear_arith)
        requires
            prod.data.len() == at.rows * r.cols,
            at.rows == 2,
            r.cols == 2 * L,
    ;
    let c0 = c.data[x0];
    let c1 = c.data[x1];
    let pd0 = pm_dot(at, r, 0, col, M as nat);
    let pd1 = pm_dot(at, r, 1, col, M as nat);
    assert(c0 == padd(pd0, g.data[x0]));
    assert(c1 == padd(pd1, g.data[x1]));
    let fam0 = dot_fam(at, r, 0, col);
    let fam1 = dot_fam(at, r, 1, col);
    let g0 = sf(g.data[x0]);
    let g1 = sf(g.data[x1]);
    let ss = sf(s);
    let v0 = sf(v.entry(0, 0));
    let v1 = sf(v.entry(1, 0));
    lemma_pm_dot_cong(at, r, 0, col, M as nat);
    lemma_pm_dot_cong(at, r, 1, col, M as nat);
    // c_k = sum_i (a_ik r_i) + G_k (mod q)
    assert(cong(sf(c0), fadd(fam_sum(fam0, M as nat), g0))) by {
        assert forall|u: int| 0 <= u < N implies #[trigger] sf(c0)(u) % q == fadd(fam_sum(fam0, M as nat), g0)(u)
            % q by {
            let d = pd0[u] as int;
            assert(sf(pd0)(u) == d);
            lemma_mod_twice(d + g0(u), q);
            lemma_cong_add(d, fam_sum(fam0, M as nat)(u), g0(u), g0(u), q);
        }
    }
    assert(cong(sf(c1), fadd(fam_sum(fam1, M as nat), g1))) by {
        assert forall|u: int| 0 <= u < N implies #[trigger] sf(c1)(u) % q == fadd(fam_sum(fam1, M as nat), g1)(u)
            % q by {
            let d = pd1[u] as int;
            assert(sf(pd1)(u) == d);
            lemma_mod_twice(d + g1(u), q);
            lemma_cong_add(d, fam_sum(fam1, M as nat)(u), g1(u), g1(u), q);
        }
    }
    // The first row: v_0 c_0 = -sum_i A_i + v_0 G_0 (mod q).
    assert(cong(v0, fneg(ss))) by {
        assert forall|u: int| 0 <= u < N implies #[trigger] v0(u) % q == fneg(ss)(u) % q by {
            assert(v0(u) == (s[u] * -1) % q);
            lemma_mod_twice(s[u] * -1, q);
        }
    }
    let p0 = cv(v0, sf(c0), t);
    lemma_cv_cong_right(v0, sf(c0), fadd(fam_sum(fam0, M as nat), g0), t);
    lemma_cv_add_right(v0, fam_sum(fam0, M as nat), g0, t);
    lemma_cv_cong_left(v0, fneg(ss), fam_sum(fam0, M as nat), t);
    lemma_cv_neg_left(ss, fam_sum(fam0, M as nat), t);
    lemma_cv_sum_right(ss, fam0, M as nat, t);
    let sum_a = sum(|i: int| cv(ss, fam_at(fam0, i), t), M as nat);
    let w0 = cv(v0, g0, t);
    assert(cv(v0, fam_sum(fam0, M as nat), t) % q == (-sum_a) % q);
    lemma_cong_add(cv(v0, fam_sum(fam0, M as nat), t), -sum_a, w0, w0, q);
    assert(p0 % q == (-sum_a + w0) % q);
    // The second row: v_1 c_1 = sum_i B_i + v_1 G_1 (mod q).
    let p1 = cv(v1, sf(c1), t);
    lemma_cv_cong_right(v1, sf(c1), fadd(fam_sum(fam1, M as nat), g1), t);
    lemma_cv_add_right(v1, fam_sum(fam1, M as nat), g1, t);
    lemma_cv_const_left(1, fam_sum(fam1, M as nat), t);
    let sum_b = fam_sum(fam1, M as nat)(t);
    let w1 = cv(v1, g1, t);
    lemma_cong_add(cv(v1, fam_sum(fam1, M as nat), t), sum_b, w1, w1, q);
    assert(p1 % q == (sum_b + w1) % q);
    // Both rows together.
    lemma_rphase_two(v, c, col, t);
    let ph = rphase(v, c, col, 2)[t] as int;
    assert(c.data[c.cols + col] == c1);
    lemma_cong_add(p0, -sum_a + w0, p1, sum_b + w1, q);
    // sum_i (B_i - A_i) = sum_i (e_i r_i)_t (mod q).
    let fa = |i: int| cv(ss, fam_at(fam0, i), t);
    let fb = |i: int| fam1(i, t);
    assert(sum_b == sum(fb, M as nat));
    let fd = |i: int| fb(i) + -1 * fa(i);
    lemma_sum_scale(fa, -1, M as nat);
    lemma_sum_add(fb, |k: int| -1 * fa(k), M as nat);
    lemma_sum_ext(|k: int| fb(k) + (|k: int| -1 * fa(k))(k), fd, M as nat);
    assert(sum(fd, M as nat) == sum_b - sum_a);
    assert forall|i: int| 0 <= i < M implies #[trigger] fd(i) % q == cv(sf(e[i]), sf(r.entry(i, col)), t) % q by {
        lemma_row_noise(a, s, e, r, col, i, t);
    }
    lemma_sum_mod(fd, |i: int| cv(sf(e[i]), sf(r.entry(i, col)), t), M as nat, q);
    lemma_cong_add(sum_b - sum_a, rnoise(e, r, col, t), w0 + w1, w0 + w1, q);
    assert(gadget_phase(v, m, col, t) == w0 + w1);
}

/// `2^(L-1)`, the gadget power of the last column.
pub(crate) proof fn lemma_pow2_top()
    ensures
        pow2(((2 * L - 1) - L) as nat) == 17179869184,
{
    lemma2_to64_rest();
    assert(((2 * L - 1) - L) as nat == 34);
}

/// `2^(L-1) m = m q/2`.
pub(crate) proof fn lemma_scale_top(m: int)
    ensures
        pow2(((2 * L - 1) - L) as nat) * m == m * 17179869184,
{
    lemma_pow2_top();
    let p = pow2(((2 * L - 1) - L) as nat) as int;
    assert(p * m == m * 17179869184) by (nonlinear_arith)
        requires
            p == 17179869184,
    ;
}

/// Bit `l` of a non-negative `x`, as `bit_of` extracts it, is `(x / 2^l) mod 2`.
proof fn lemma_bit_of(x: i64, l: int)
    requires
        x >= 0,
        0 <= l < 64,
    ensures
        bit_of(x, l) == (x as int / pow2(l as nat) as int) % 2,
{
    let sh = l as u64;
    assert((x >> sh) >= 0 && (x >> sh) as u64 == (x as u64) >> sh) by (bit_vector)
        requires
            x >= 0,
            sh < 64,
    ;
    vstd::bits::lemma_u64_shr_is_div(x as u64, sh);
    assert((x >> sh) & 1 == (x >> sh) % 2) by (bit_vector)
        requires
            x >= 0,
            sh < 64,
    ;
}

/// The bits that `G^-1` extracts from a coefficient in `[0, q)` rebuild it:
/// `sum_{l < L} 2^l bit_l(x) = x`.
proof fn lemma_rgsw_recompose(x: i64)
    requires
        0 <= x < Q,
    ensures
        sum(|l: int| pow2(l as nat) * bit_of(x, l), L as nat) == x,
{
    assert forall|l: int| 0 <= l < L implies #[trigger] (pow2(l as nat) * bit_of(x, l)) == (pow2(l as nat) as int)
        * ((x as int / (pow2(l as nat) as int)) % 2) by {
        lemma_bit_of(x, l);
    }
    lemma_sum_ext(
        |l: int| pow2(l as nat) * bit_of(x, l),
        |l: int| (pow2(l as nat) as int) * ((x as int / (pow2(l as nat) as int)) % 2),
        L as nat,
    );
    lemma_bits_rebuild(x as int, L as nat);
    lemma2_to64_rest();
    lemma_small_mod(x as nat, pow2(35) as nat);
}

/// The low `L` bits of any `x` are the bits of `x mod 2^L`.
proof fn lemma_low_bits(x: i64, l: int)
    requires
        0 <= l < L,
    ensures
        0 <= x as int % (Q as int) < Q,
        bit_of(x, l) == bit_of((x as int % (Q as int)) as i64, l),
{
    let sh = l as u64;
    let y = x & 0x7_ffff_ffffi64;
    assert((x >> sh) & 1 == (y >> sh) & 1) by (bit_vector)
        requires
            sh < 35,
            y == x & 0x7_ffff_ffffi64,
    ;
    assert(y == ((x as u64) & 0x7_ffff_ffffu64) as i64) by (bit_vector)
        requires
            y == x & 0x7_ffff_ffffi64,
    ;
    assert(((x as u64) & 0x7_ffff_ffffu64) == (x as u64) % 0x8_0000_0000u64) by (bit_vector);
    assert(0 <= y < 0x8_0000_0000);
    assert(x < 0 ==> (x as u64) as int == x as int + 0x1_0000_0000_0000_0000int) by (bit_vector);
    assert(x >= 0 ==> (x as u64) as int == x as int) by (bit_vector);
    if x < 0 {
        lemma_mod_add_multiples_vanish(x as int, 0x8_0000_0000);
        assert(0x1_0000_0000_0000_0000int == 0x8_0000_0000int * 0x2000_0000);
        lemma_mod_multiples_vanish(0x2000_0000, x as int, 0x8_0000_0000);
    }
    assert(y as int == x as int % (Q as int));
}

/// The bits that `G^-1` extracts from any coefficient rebuild it modulo `q`:
/// `sum_{l < L} 2^l bit_l(x) = x mod q`.
proof fn lemma_rgsw_recompose_any(x: i64)
    ensures
        sum(|l: int| pow2(l as nat) * bit_of(x, l), L as nat) == x as int % (Q as int),
{
    let y = (x as int % (Q as int)) as i64;
    assert forall|l: int| 0 <= l < L implies #[trigger] (pow2(l as nat) * bit_of(x, l)) == pow2(l as nat)
        * bit_of(y, l) by {
        lemma_low_bits(x, l);
    }
    lemma_low_bits(x, 0);
    lemma_sum_ext(|l: int| pow2(l as nat) * bit_of(x, l), |l: int| pow2(l as nat) * bit_of(y, l), L as nat);
    lemma_rgsw_recompose(y);
}

/// `G G^-1(c) = c mod q`: for the first two rows and `2L` columns of `c`, the
/// bits that `g_inverse` puts in rows `row L .. row L + L` of column `col`,
/// weighted by `2^l`, rebuild every coefficient of entry `(row, col)` modulo `q`;
/// and every coefficient of `G^-1(c)` is `0` or `1`.
pub proof fn rgsw_gadget_recomposes(c: PolyMat, row: int, col: int, d: int)
    requires
        0 <= row < 2,
        0 <= col < 2 * L,
        0 <= d < N,
    ensures
        sum(|l: int| pow2(l as nat) * pm_ginv(c).entry(row * L + l, col)[d], L as nat)
            == c.entry(row, col)[d] as int % (Q as int),
        forall|r: int, e: int|
            0 <= r < 2 * L && 0 <= e < N ==> 0 <= #[trigger] pm_ginv(c).entry(r, col)[e] <= 1,
{
    let g = pm_ginv(c);
    let x = c.entry(row, col)[d];
    super::lemma_sizes();
    assert forall|l: int| 0 <= l < L implies #[trigger] (pow2(l as nat) * g.entry(row * L + l, col)[d])
        == pow2(l as nat) * bit_of(x, l) by {
        let rr = row * L + l;
        lemma_rm_index(2 * L as int, 2 * L as int, rr, col);
        lemma_rm_unflat(rr, col, 2 * L as int);
        lemma_rm_unflat(row, l, L as int);
    }
    lemma_sum_ext(
        |l: int| pow2(l as nat) * g.entry(row * L + l, col)[d],
        |l: int| pow2(l as nat) * bit_of(x, l),
        L as nat,
    );
    lemma_rgsw_recompose_any(x);
    assert forall|r: int, e: int| 0 <= r < 2 * L && 0 <= e < N implies 0 <= #[trigger] g.entry(r, col)[e]
        <= 1 by {
        lemma_rm_index(2 * L as int, 2 * L as int, r, col);
        lemma_rm_unflat(r, col, 2 * L as int);
        let y = c.data[(r / L as int) * c.cols + col][e];
        let sh = (r % L as int) as u64;
        assert(0 <= (y >> sh) & 1 <= 1) by (bit_vector);
    }
}

/// `pow2(col % L)` times row `col / L` of the secret: the gadget column `col`
/// seen through the secret.
pub open spec fn vg(v: PolyMat, col: int, t: int) -> int {
    pow2((col % (L as int)) as nat) * sf(v.entry(col / (L as int), 0))(t)
}

/// `cv(x, y, t)` with a constant second factor `k` is `k x_t` modulo `q`.
proof fn lemma_cv_const_right(x: spec_fn(int) -> int, k: int, t: int)
    requires
        0 <= t < N,
    ensures
        cv(x, sf(pconst(k)), t) % (Q as int) == (k * x(t)) % (Q as int),
{
    cv_commutes(x, sf(pconst(k)), t);
    lemma_cv_const_left(k, x, t);
}

/// The gadget part of an encryption of the constant `m` adds `m 2^(col mod L)`
/// times row `col / L` of the secret.
proof fn lemma_gadget_phase_const(v: PolyMat, m: int, col: int, t: int)
    requires
        0 <= col < 2 * L,
        0 <= t < N,
    ensures
        gadget_phase(v, pconst(m), col, t) % (Q as int) == (m * vg(v, col, t)) % (Q as int),
{
    let q = Q as int;
    let g = pm_gadget(pconst(m));
    let k = col / (L as int);
    let i = col % (L as int);
    super::poly::lemma_rm_unflat(0, col, 2 * L as int);
    super::poly::lemma_rm_unflat(1, col, 2 * L as int);
    let pw = pow2(i as nat) as int;
    let own = g.data[k * (2 * L) + col];
    let other = g.data[(1 - k) * (2 * L) + col];
    assert(own == pmul(pconst(pw), pconst(m)));
    assert(other == pzero());
    // The entry in the own block is the constant `2^i m`.
    assert(cong(sf(own), sf(pconst(pw * m)))) by {
        assert forall|u: int| 0 <= u < N implies #[trigger] sf(own)(u) % q == sf(pconst(pw * m))(u) % q by {
            lemma_pmul_is_cv(pconst(pw), pconst(m), u);
            lemma_cv_const_left(pw, sf(pconst(m)), u);
            let w = cv(sf(pconst(pw)), sf(pconst(m)), u);
            assert(sf(own)(u) == w % q);
            lemma_mod_twice(w, q);
            assert(sf(own)(u) % q == (pw * sf(pconst(m))(u)) % q);
            if u == 0 {
                assert(sf(pconst(m))(u) == m % q);
                lemma_mul_mod_noop_right(pw, m, q);
                lemma_mod_twice(pw * m, q);
                assert(sf(pconst(pw * m))(u) == (pw * m) % q);
            } else {
                assert(sf(pconst(m))(u) == 0);
                assert(sf(pconst(pw * m))(u) == 0);
                assert(pw * 0 == 0);
            }
        }
    }
    let vk = sf(v.entry(k, 0));
    let vo = sf(v.entry(1 - k, 0));
    lemma_cv_cong_right(vk, sf(own), sf(pconst(pw * m)), t);
    lemma_cv_const_right(vk, pw * m, t);
    assert forall|j: int| 0 <= j < N implies #[trigger] cv_term(vo, sf(other), t, j) == 0 by {
        if t >= j {
            assert(sf(other)(t - j) == pzero()[t - j]);
        } else {
            assert(sf(other)(t - j + N) == pzero()[t - j + N]);
        }
        assert(xshift(sf(other), j, t) == 0);
    }
    crate::arith::lemma_sum_zero(|j: int| cv_term(vo, sf(other), t, j), N as nat);
    assert((pw * m) * vk(t) == m * (pw * vk(t))) by (nonlinear_arith);
    if k == 0 {
        assert(gadget_phase(v, pconst(m), col, t) == cv(vk, sf(own), t) + cv(vo, sf(other), t));
    } else {
        assert(gadget_phase(v, pconst(m), col, t) == cv(vo, sf(other), t) + cv(vk, sf(own), t));
    }
}

/// Coefficient `u` of the phase of `c1` at column `l`, as a function of `u`.
pub open spec fn phase_fn(v: PolyMat, c: PolyMat, l: int) -> spec_fn(int) -> int {
    |u: int| rphase(v, c, l, 2)[u] as int
}

/// Row `k` of the secret times entry `(k, j)` of `c1 Z` is, modulo `q`,
/// `sum_l (v_k c1[k][l]) Z[l][j]`.
proof fn lemma_product_row(v: PolyMat, c1: PolyMat, z: PolyMat, k: int, j: int, t: int)
    requires
        c1.rows == 2,
        c1.cols == 2 * L,
        z.rows == 2 * L,
        z.cols == 2 * L,
        0 <= k < 2,
        0 <= j < 2 * L,
        0 <= t < N,
    ensures
        cv(sf(v.entry(k, 0)), sf(pm_product(c1, z, (2 * L) as nat).data[k * (2 * L) + j]), t) % (Q as int)
            == sum(
            |l: int| cv(cvf(sf(v.entry(k, 0)), sf(c1.entry(k, l))), sf(z.entry(l, j)), t),
            (2 * L) as nat,
        ) % (Q as int),
{
    let c = pm_product(c1, z, (2 * L) as nat);
    let vk = sf(v.entry(k, 0));
    let x = k * (2 * L) + j;
    super::poly::lemma_rm_unflat(k, j, 2 * L as int);
    assert(x < c1.rows * z.cols) by (nonlinear_arith)
        requires
            x == k * (2 * L) + j,
            0 <= k < 2,
            0 <= j < 2 * L,
            c1.rows == 2,
            z.cols == 2 * L,
    ;
    assert(c.data[x] == pm_dot(c1, z, k, j, (2 * L) as nat));
    let fam = dot_fam(c1, z, k, j);
    lemma_pm_dot_cong(c1, z, k, j, (2 * L) as nat);
    lemma_cv_cong_right(vk, sf(c.data[x]), fam_sum(fam, (2 * L) as nat), t);
    lemma_cv_sum_right(vk, fam, (2 * L) as nat, t);
    assert forall|l: int| 0 <= l < 2 * L implies #[trigger] cv(vk, fam_at(fam, l), t) == cv(
        cvf(vk, sf(c1.entry(k, l))),
        sf(z.entry(l, j)),
        t,
    ) by {
        assert(fam_at(fam, l) =~= cvf(sf(c1.entry(k, l)), sf(z.entry(l, j))));
        cv_associates(vk, sf(c1.entry(k, l)), sf(z.entry(l, j)), t);
    }
    lemma_sum_ext(
        |l: int| cv(vk, fam_at(fam, l), t),
        |l: int| cv(cvf(vk, sf(c1.entry(k, l))), sf(z.entry(l, j)), t),
        (2 * L) as nat,
    );
}

/// The phase of `c1 Z` at column `j` is, modulo `q`, `sum_l (phase of c1 at l) Z[l][j]`.
proof fn lemma_product_phase(v: PolyMat, c1: PolyMat, z: PolyMat, j: int, t: int)
    requires
        c1.rows == 2,
        c1.cols == 2 * L,
        z.rows == 2 * L,
        z.cols == 2 * L,
        0 <= j < 2 * L,
        0 <= t < N,
    ensures
        (rphase(v, pm_product(c1, z, (2 * L) as nat), j, 2)[t] as int) % (Q as int) == sum(
            |l: int| cv(phase_fn(v, c1, l), sf(z.entry(l, j)), t),
            (2 * L) as nat,
        ) % (Q as int),
{
    let q = Q as int;
    let c = pm_product(c1, z, (2 * L) as nat);
    let v0 = sf(v.entry(0, 0));
    let v1 = sf(v.entry(1, 0));
    lemma_rphase_two(v, c, j, t);
    assert(c.cols == 2 * L);
    lemma_product_row(v, c1, z, 0, j, t);
    lemma_product_row(v, c1, z, 1, j, t);
    let f0 = |l: int| cv(cvf(v0, sf(c1.entry(0, l))), sf(z.entry(l, j)), t);
    let f1 = |l: int| cv(cvf(v1, sf(c1.entry(1, l))), sf(z.entry(l, j)), t);
    let g = |l: int| cv(phase_fn(v, c1, l), sf(z.entry(l, j)), t);
    assert(c.data[0 * (2 * L) + j] == c.data[j]);
    assert(c.data[1 * (2 * L) + j] == c.data[c.cols + j]);
    lemma_cong_add(
        cv(v0, sf(c.data[j]), t),
        sum(f0, (2 * L) as nat),
        cv(v1, sf(c.data[c.cols + j]), t),
        sum(f1, (2 * L) as nat),
        q,
    );
    lemma_sum_add(f0, f1, (2 * L) as nat);
    assert forall|l: int| 0 <= l < 2 * L implies #[trigger] (f0(l) + f1(l)) % q == g(l) % q by {
        let w = fadd(cvf(v0, sf(c1.entry(0, l))), cvf(v1, sf(c1.entry(1, l))));
        lemma_cv_add_left(cvf(v0, sf(c1.entry(0, l))), cvf(v1, sf(c1.entry(1, l))), sf(z.entry(l, j)), t);
        assert(cong(w, phase_fn(v, c1, l))) by {
            assert forall|u: int| 0 <= u < N implies #[trigger] w(u) % q == phase_fn(v, c1, l)(u) % q by {
                lemma_rphase_two(v, c1, l, u);
                assert(c1.entry(0, l) == c1.data[l]);
                assert(c1.entry(1, l) == c1.data[c1.cols + l]);
            }
        }
        lemma_cv_cong_left(w, phase_fn(v, c1, l), sf(z.entry(l, j)), t);
    }
    lemma_sum_mod(|k: int| f0(k) + f1(k), g, (2 * L) as nat, q);
}

/// The bits of column `j` of block `k` of `G^-1(c2)`, weighted by the powers of
/// two: term `(i, u)` is `2^i Z[k L + i][j]_u`.
pub open spec fn bits_fam(z: PolyMat, k: int, j: int) -> spec_fn(int, int) -> int {
    |i: int, u: int| pow2(i as nat) * sf(z.entry(k * L + i, j))(u)
}

/// Entry `(k L + i, j)` of `G^-1(c2)` holds bit `i` of each coefficient of entry
/// `(k, j)` of `c2`.
proof fn lemma_ginv_entry(c2: PolyMat, k: int, i: int, j: int, u: int)
    requires
        0 <= k < 2,
        0 <= i < L,
        0 <= j < 2 * L,
        0 <= u < N,
    ensures
        pm_ginv(c2).entry(k * L + i, j)[u] == bit_of(c2.entry(k, j)[u], i),
{
    let r = k * L + i;
    super::poly::lemma_rm_unflat(r, j, 2 * L as int);
    super::poly::lemma_rm_unflat(k, i, L as int);
    assert(r * (2 * L) + j < 4 * L * L) by (nonlinear_arith)
        requires
            r == k * L + i,
            0 <= k < 2,
            0 <= i < L,
            0 <= j < 2 * L,
    ;
    assert(4 * L * L == (2 * L) * (2 * L)) by (nonlinear_arith)
        requires
            L == 35,
    ;
}

/// Weighting the bits of block `k` by powers of two rebuilds entry `(k, j)` of a
/// reduced `c2`, seen through row `k` of the secret.
proof fn lemma_block_recompose(v: PolyMat, c2: PolyMat, k: int, j: int, t: int)
    requires
        0 <= k < 2,
        0 <= j < 2 * L,
        0 <= t < N,
        coefs_within(c2.entry(k, j), 0, Q - 1),
    ensures
        sum(
            |i: int| pow2(i as nat) * cv(sf(v.entry(k, 0)), sf(pm_ginv(c2).entry(k * L + i, j)), t),
            L as nat,
        ) == cv(sf(v.entry(k, 0)), sf(c2.entry(k, j)), t),
{
    let z = pm_ginv(c2);
    let vk = sf(v.entry(k, 0));
    let fam = bits_fam(z, k, j);
    lemma_cv_sum_right(vk, fam, L as nat, t);
    assert forall|i: int| 0 <= i < L implies #[trigger] cv(vk, fam_at(fam, i), t) == pow2(i as nat) * cv(
        vk,
        sf(z.entry(k * L + i, j)),
        t,
    ) by {
        assert(fam_at(fam, i) =~= fscale(pow2(i as nat) as int, sf(z.entry(k * L + i, j))));
        lemma_cv_scale_right(pow2(i as nat) as int, vk, sf(z.entry(k * L + i, j)), t);
    }
    lemma_sum_ext(
        |i: int| cv(vk, fam_at(fam, i), t),
        |i: int| pow2(i as nat) * cv(vk, sf(z.entry(k * L + i, j)), t),
        L as nat,
    );
    assert(cong(fam_sum(fam, L as nat), sf(c2.entry(k, j)))) by {
        assert forall|u: int| 0 <= u < N implies #[trigger] fam_sum(fam, L as nat)(u) % (Q as int) == sf(
            c2.entry(k, j),
        )(u) % (Q as int) by {
            let x = c2.entry(k, j)[u];
            assert forall|i: int| 0 <= i < L implies #[trigger] fam(i, u) == pow2(i as nat) * bit_of(x, i) by {
                lemma_ginv_entry(c2, k, i, j, u);
            }
            lemma_sum_ext(|i: int| fam(i, u), |l: int| pow2(l as nat) * bit_of(x, l), L as nat);
            lemma_rgsw_recompose(x);
        }
    }
    lemma_cv_cong_right(vk, fam_sum(fam, L as nat), sf(c2.entry(k, j)), t);
    // Both sides are the same integer: the congruent functions agree exactly.
    assert(cv(vk, fam_sum(fam, L as nat), t) == cv(vk, sf(c2.entry(k, j)), t)) by {
        assert forall|i: int| 0 <= i < N implies #[trigger] cv_term(vk, fam_sum(fam, L as nat), t, i) == cv_term(
            vk,
            sf(c2.entry(k, j)),
            t,
            i,
        ) by {
            let u = if t >= i { t - i } else { t - i + N };
            let x = c2.entry(k, j)[u];
            assert forall|l: int| 0 <= l < L implies #[trigger] fam(l, u) == pow2(l as nat) * bit_of(x, l) by {
                lemma_ginv_entry(c2, k, l, j, u);
            }
            lemma_sum_ext(|l: int| fam(l, u), |l: int| pow2(l as nat) * bit_of(x, l), L as nat);
            lemma_rgsw_recompose(x);
        }
        lemma_sum_ext(
            |i: int| cv_term(vk, fam_sum(fam, L as nat), t, i),
            |i: int| cv_term(vk, sf(c2.entry(k, j)), t, i),
            N as nat,
        );
    }
}

/// Term `l` of `sum_l 2^(l mod L) (v_(l / L) Z[l][j])_t`.
pub open spec fn gz_term(v: PolyMat, z: PolyMat, j: int, t: int, l: int) -> int {
    pow2((l % (L as int)) as nat) * cv(sf(v.entry(l / (L as int), 0)), sf(z.entry(l, j)), t)
}

/// Every stored entry of `c` has coefficients in `[0, q)`.
pub open spec fn entries_reduced(c: PolyMat) -> bool {
    forall|x: int| 0 <= x < c.data.len() ==> coefs_within(#[trigger] c.data[x], 0, Q - 1)
}

/// `G G^-1(c2) = c2`: the gadget columns of the secret, applied to the bit
/// decomposition of a reduced `c2`, give back the phase of `c2`.
proof fn lemma_gadget_through_ginv(v: PolyMat, c2: PolyMat, j: int, t: int)
    requires
        c2.cols == 2 * L,
        c2.data.len() == 4 * L,
        entries_reduced(c2),
        0 <= j < 2 * L,
        0 <= t < N,
    ensures
        sum(|l: int| gz_term(v, pm_ginv(c2), j, t, l), (2 * L) as nat) % (Q as int) == (rphase(v, c2, j, 2)[t]
            as int) % (Q as int),
{
    let q = Q as int;
    let z = pm_ginv(c2);
    let f = |l: int| gz_term(v, z, j, t, l);
    lemma_sum_split(f, L as nat, L as nat);
    super::poly::lemma_rm_unflat(0, j, 2 * L as int);
    super::poly::lemma_rm_unflat(1, j, 2 * L as int);
    assert(coefs_within(c2.entry(0, j), 0, Q - 1));
    assert(coefs_within(c2.entry(1, j), 0, Q - 1));
    lemma_block_recompose(v, c2, 0, j, t);
    lemma_block_recompose(v, c2, 1, j, t);
    assert forall|i: int| 0 <= i < L implies #[trigger] f(i) == pow2(i as nat) * cv(
        sf(v.entry(0, 0)),
        sf(z.entry(0 * L + i, j)),
        t,
    ) by {
        super::poly::lemma_rm_unflat(0, i, L as int);
    }
    lemma_sum_ext(
        f,
        |i: int| pow2(i as nat) * cv(sf(v.entry(0, 0)), sf(z.entry(0 * L + i, j)), t),
        L as nat,
    );
    assert forall|i: int| 0 <= i < L implies #[trigger] f(L + i) == pow2(i as nat) * cv(
        sf(v.entry(1, 0)),
        sf(z.entry(1 * L + i, j)),
        t,
    ) by {
        super::poly::lemma_rm_unflat(1, i, L as int);
    }
    lemma_sum_ext(
        |i: int| f(L + i),
        |i: int| pow2(i as nat) * cv(sf(v.entry(1, 0)), sf(z.entry(1 * L + i, j)), t),
        L as nat,
    );
    lemma_rphase_two(v, c2, j, t);
    assert(c2.entry(0, j) == c2.data[j]);
    assert(c2.entry(1, j) == c2.data[c2.cols + j]);
}

/// `|(x y)_t| <= N b` when `|x_u| <= b` and `y` is binary.
proof fn lemma_bounded_times_bits(x: spec_fn(int) -> int, y: Seq<i64>, b: int, t: int)
    requires
        forall|u: int| 0 <= u < N ==> abs(#[trigger] x(u)) <= b,
        coefs_within(y, 0, 1),
        0 <= t < N,
    ensures
        abs(cv(x, sf(y), t)) <= N * b,
{
    assert forall|k: int| 0 <= k < N implies abs(#[trigger] cv_term(x, sf(y), t, k)) <= b by {
        let w = xshift(sf(y), k, t);
        assert(-1 <= w <= 1);
        let xk = x(k);
        assert(abs(xk) <= b);
        assert(abs(xk * w) <= b) by (nonlinear_arith)
            requires
                abs(xk) <= b,
                -1 <= w <= 1,
        ;
    }
    lemma_sum_bound(|k: int| cv_term(x, sf(y), t, k), N as nat, b);
}

/// The entries of `G^-1(c)` are binary.
proof fn lemma_ginv_binary(c: PolyMat, l: int, j: int)
    requires
        0 <= l < 2 * L,
        0 <= j < 2 * L,
    ensures
        coefs_within(pm_ginv(c).entry(l, j), 0, 1),
{
    super::poly::lemma_rm_unflat(l, j, 2 * L as int);
    assert(l * (2 * L) + j < 4 * L * L) by (nonlinear_arith)
        requires
            0 <= l < 2 * L,
            0 <= j < 2 * L,
            L == 35,
    ;
    assert forall|u: int| 0 <= u < N implies 0 <= #[trigger] pm_ginv(c).entry(l, j)[u] <= 1 by {
        let x = c.data[(l / (L as int)) * c.cols + j][u];
        let sh = (l % (L as int)) as u64;
        assert(0 <= (x >> sh) & 1 <= 1) by (bit_vector);
    }
}

/// An encryption is a `2 x 2L` matrix whose entries are reduced.
pub(crate) proof fn lemma_encryption_shape(a: PolyMat, m: Seq<i64>, c: PolyMat)
    requires
        a.cols == 2,
        is_rgsw_encryption(a, m, c),
    ensures
        c.rows == 2,
        c.cols == 2 * L,
        c.data.len() == 4 * L,
        entries_reduced(c),
{
    assert(c.data.len() == 4 * L) by (nonlinear_arith)
        requires
            c.data.len() == c.rows * c.cols,
            c.rows == 2,
            c.cols == 2 * L,
    ;
}

/// The phase of `c1 G^-1(c2)` for an encryption `c1` of the constant `m1` and any
/// `2 x 2L` matrix `c2` of reduced entries: `ph = noise + m1 (phase of c2)`
/// modulo `q`, with `|noise| <= 2L N 64`.
pub(crate) proof fn lemma_mul_phase_any(v: PolyMat, a: PolyMat, m1: int, c1: PolyMat, c2: PolyMat, j: int, t: int) -> (noise: int)
    requires
        is_rgsw_keypair(v, a),
        is_rgsw_encryption(a, pconst(m1), c1),
        c2.rows == 2,
        c2.cols == 2 * L,
        c2.data.len() == 4 * L,
        entries_reduced(c2),
        0 <= j < 2 * L,
        0 <= t < N,
    ensures
        abs(noise) <= 71680,
        v.rows == 2,
        c1.rows == 2,
        c1.cols == 2 * L,
        (rphase(v, pm_product(c1, pm_ginv(c2), (2 * L) as nat), j, 2)[t] as int) % (Q as int) == (noise + m1
            * (rphase(v, c2, j, 2)[t] as int)) % (Q as int),
{
    let q = Q as int;
    let (s, e) = choose|s: Seq<i64>, e: Seq<Seq<i64>>| is_rgsw_secret(v, s) && #[trigger] rlwe_relation(a, s, e);
    let r1 = choose|r: PolyMat| #[trigger] renc_relation(a, r, pconst(m1), c1);
    lemma_encryption_shape(a, pconst(m1), c1);
    let z = pm_ginv(c2);
    let c = pm_product(c1, z, (2 * L) as nat);
    lemma_product_phase(v, c1, z, j, t);
    // Each column of c1 contributes its noise times Z plus m1 times the gadget column.
    let fa = |l: int| cv(phase_fn(v, c1, l), sf(z.entry(l, j)), t);
    let fnz = |l: int| cv(|u: int| rnoise(e, r1, l, u), sf(z.entry(l, j)), t);
    let fg = |l: int| gz_term(v, z, j, t, l);
    assert forall|l: int| 0 <= l < 2 * L implies #[trigger] fa(l) % q == (fnz(l) + m1 * fg(l)) % q by {
        let nf = |u: int| rnoise(e, r1, l, u);
        let vgl = fscale(pow2((l % (L as int)) as nat) as int, sf(v.entry(l / (L as int), 0)));
        let zl = sf(z.entry(l, j));
        assert(cong(phase_fn(v, c1, l), fadd(nf, fscale(m1, vgl)))) by {
            assert forall|u: int| 0 <= u < N implies #[trigger] phase_fn(v, c1, l)(u) % q == fadd(nf, fscale(m1, vgl))(
                u,
            ) % q by {
                lemma_phase_general(v, a, s, e, r1, pconst(m1), c1, l, u);
                lemma_gadget_phase_const(v, m1, l, u);
                assert(fscale(m1, vgl)(u) == m1 * vg(v, l, u)) by {
                    assert(vgl(u) == vg(v, l, u));
                }
                lemma_cong_add(
                    rnoise(e, r1, l, u),
                    rnoise(e, r1, l, u),
                    gadget_phase(v, pconst(m1), l, u),
                    m1 * vg(v, l, u),
                    q,
                );
            }
        }
        lemma_cv_cong_left(phase_fn(v, c1, l), fadd(nf, fscale(m1, vgl)), zl, t);
        lemma_cv_add_left(nf, fscale(m1, vgl), zl, t);
        lemma_cv_scale_left(m1, vgl, zl, t);
        lemma_cv_scale_left(pow2((l % (L as int)) as nat) as int, sf(v.entry(l / (L as int), 0)), zl, t);
    }
    let fsum = |l: int| fnz(l) + m1 * fg(l);
    lemma_sum_mod(fa, fsum, (2 * L) as nat, q);
    let fm = |k: int| m1 * fg(k);
    lemma_sum_scale(fg, m1, (2 * L) as nat);
    lemma_sum_add(fnz, fm, (2 * L) as nat);
    lemma_sum_ext(|k: int| fnz(k) + fm(k), fsum, (2 * L) as nat);
    let ns = sum(fnz, (2 * L) as nat);
    let gs = sum(fg, (2 * L) as nat);
    assert(sum(fsum, (2 * L) as nat) == ns + m1 * gs);
    let ph0 = rphase(v, c, j, 2)[t] as int;
    assert(ph0 % q == sum(fa, (2 * L) as nat) % q);
    assert(ph0 % q == (ns + m1 * gs) % q);
    // The gadget columns rebuild the phase of c2.
    lemma_gadget_through_ginv(v, c2, j, t);
    let p2 = rphase(v, c2, j, 2)[t] as int;
    lemma_mul_mod_noop_right(m1, gs, q);
    lemma_mul_mod_noop_right(m1, p2, q);
    lemma_cong_add(ns, ns, m1 * gs, m1 * p2, q);
    // The noise bound.
    assert forall|l: int| 0 <= l < 2 * L implies abs(#[trigger] fnz(l)) <= 1024 by {
        assert forall|u: int| 0 <= u < N implies abs(#[trigger] rnoise(e, r1, l, u)) <= 64 by {
            lemma_rnoise_bound(a, s, e, r1, pconst(m1), c1, l, u);
        }
        lemma_ginv_binary(c2, l, j);
        lemma_bounded_times_bits(|u: int| rnoise(e, r1, l, u), z.entry(l, j), 64, t);
    }
    lemma_sum_bound(fnz, (2 * L) as nat, 1024);
    ns
}

/// The phase of `c1 G^-1(c2)` for encryptions of the constant `m1` and of `m2`:
/// `ph = noise + m1 2^(j - L) m2_t (mod q)` with
/// `|noise| <= 2L N 64 + |m1| 64`.
proof fn lemma_mul_phase(
    v: PolyMat,
    a: PolyMat,
    m1: int,
    m2: Seq<i64>,
    c1: PolyMat,
    c2: PolyMat,
    j: int,
    t: int,
) -> (noise: int)
    requires
        is_rgsw_keypair(v, a),
        is_rgsw_encryption(a, pconst(m1), c1),
        is_rgsw_encryption(a, m2, c2),
        L <= j < 2 * L,
        0 <= t < N,
    ensures
        abs(noise) <= 71680 + abs(m1) * 64,
        v.rows == 2,
        0 <= rphase(v, pm_product(c1, pm_ginv(c2), (2 * L) as nat), j, v.rows)[t] < Q,
        rphase(v, pm_product(c1, pm_ginv(c2), (2 * L) as nat), j, v.rows)[t] as int == (noise + m1 * (pow2(
            (j - L) as nat,
        ) * m2[t])) % (Q as int),
{
    let q = Q as int;
    lemma_encryption_shape(a, m2, c2);
    let ns = lemma_mul_phase_any(v, a, m1, c1, c2, j, t);
    let c = pm_product(c1, pm_ginv(c2), (2 * L) as nat);
    let n2 = lemma_fresh_phase(v, a, m2, c2, j, t);
    let p2 = rphase(v, c2, j, 2)[t] as int;
    let target = pow2((j - L) as nat) * m2[t];
    lemma_mod_twice(n2 + target, q);
    assert(p2 % q == (n2 + target) % q);
    lemma_mul_mod_noop_right(m1, p2, q);
    lemma_mul_mod_noop_right(m1, n2 + target, q);
    lemma_cong_add(ns, ns, m1 * p2, m1 * (n2 + target), q);
    assert(m1 * (n2 + target) == m1 * n2 + m1 * target) by (nonlinear_arith);
    assert(abs(m1 * n2) <= abs(m1) * 64) by (nonlinear_arith)
        requires
            abs(n2) <= 64,
    ;
    let ph = rphase(v, c, j, 2)[t] as int;
    lemma_rphase_two(v, c, j, t);
    lemma_small_mod(ph as nat, q as nat);
    ns + m1 * n2
}

/// Homomorphic multiplication of bits is AND: for encryptions under one key pair
/// of the bits `m1` and `m2`, `decrypt` of `C1 G^-1(C2)` gives `m1 AND m2`.
pub proof fn rgsw_mul_is_and(v: PolyMat, a: PolyMat, m1: int, m2: int, c1: PolyMat, c2: PolyMat)
    requires
        is_rgsw_keypair(v, a),
        m1 == 0 || m1 == 1,
        m2 == 0 || m2 == 1,
        is_rgsw_encryption(a, pconst(m1), c1),
        is_rgsw_encryption(a, pconst(m2), c2),
    ensures
        rdecode_bit(rphase(v, pm_product(c1, pm_ginv(c2), (2 * L) as nat), 2 * L - 1, v.rows)[0] as int)
            == m1 * m2,
{
    let x = lemma_mul_phase(v, a, m1, pconst(m2), c1, c2, 2 * L - 1, 0);
    let mm = m1 * m2;
    assert(pconst(m2)[0] == m2);
    lemma_scale_top(m2);
    assert(m1 * (pow2(((2 * L - 1) - L) as nat) * m2) == mm * 17179869184) by (nonlinear_arith)
        requires
            pow2(((2 * L - 1) - L) as nat) * m2 == m2 * 17179869184,
            mm == m1 * m2,
    ;
    lemma_rdecode_bit(x, mm);
}

} // verus!
