//! What blind rotation does to the encrypted polynomial: the accumulator stays an
//! encryption, of the test polynomial rotated by `X^(b - sum_i a_i s_i)`, and its
//! noise grows by a fixed amount per controlled rotation.
use vstd::prelude::*;
use vstd::arithmetic::div_mod::*;
use vstd::arithmetic::mul::*;
use crate::arith::{abs, sum, lemma_sum_single, lemma_sum_mod, lemma_sum_ext};
use crate::params::rgsw::{N, Q, L};
use crate::rgsw::poly::{PolyMat, pconst, pzero, pmul, pm_add, pm_product, coefs_within};
use crate::rgsw::pm_gadget;
use vstd::arithmetic::power2::pow2;
use crate::rgsw::ring::{
    cv, cv_term, cvf, sf, cong, xshift, fadd, fscale, cv_commutes, cv_associates, lemma_cv_cong_left,
    lemma_cv_cong_right, lemma_cv_const_left, lemma_pmul_is_cv, lemma_cv_scale_right, fneg, lemma_cv_neg_left,
};
use crate::rgsw::correctness::{
    phase_fn, gadget_phase, entries_reduced, rnoise, lemma_rphase_two, lemma_cong_add, lemma_cv_add_right,
    lemma_phase_general, lemma_rnoise_bound, lemma_encryption_shape, lemma_phase_of_sum, lemma_mul_phase_any,
};
use crate::rgsw::{
    is_rgsw_secret, rlwe_relation, is_rgsw_keypair, renc_relation, is_rgsw_encryption, rphase, rdecode_bit,
};
use super::{shift_of, wraps_odd, prot, pm_rotate, pm_diff, pdiff, cmux_step, blind_rotate_spec, rotation_composes};
use crate::rgsw::pm_ginv;

verus! {

/// The coefficients of `X^a` in `Z[X]/(X^N + 1)`: `+1` at `a mod 2N` when that is
/// below `N`, and `-1` at `a mod 2N - N` otherwise.
pub open spec fn mono(a: int) -> spec_fn(int) -> int {
    |i: int|
        {
            let sh = shift_of(a);
            if sh < N {
                if i == sh { 1int } else { 0int }
            } else {
                if i == sh - N { -1int } else { 0int }
            }
        }
}

/// The coefficients of the monomial `X^a` in `Z_q[X]/(X^N + 1)` as stored, with
/// `-1` for the negated monomials.
pub open spec fn mono_seq(a: int) -> Seq<i64> {
    Seq::new(N as nat, |i: int| mono(a)(i) as i64)
}

/// `multiply_by_x_power(p, a)` is `Poly::mul` by the monomial `X^a`: both give the
/// product `X^a p` in `Z_q[X]/(X^N + 1)`.
pub proof fn rotation_is_monomial_product(p: Seq<i64>, a: int)
    ensures
        prot(p, a) == pmul(mono_seq(a), p),
{
    assert(cong(sf(mono_seq(a)), mono(a)));
    assert forall|t: int| 0 <= t < N implies #[trigger] prot(p, a)[t] == pmul(mono_seq(a), p)[t] by {
        lemma_prot_is_cv(p, a, t);
        lemma_pmul_is_cv(mono_seq(a), p, t);
        lemma_cv_cong_left(sf(mono_seq(a)), mono(a), sf(p), t);
    }
    assert(prot(p, a) =~= pmul(mono_seq(a), p));
}

/// Multiplying by `X^a` as `multiply_by_x_power` does is `cv` with `X^a`, reduced
/// modulo `q`.
pub proof fn lemma_prot_is_cv(p: Seq<i64>, a: int, t: int)
    requires
        0 <= t < N,
    ensures
        prot(p, a)[t] as int == cv(mono(a), sf(p), t) % (Q as int),
{
    let sh = shift_of(a);
    let i0 = if sh < N { sh } else { sh - N };
    let f = |i: int| cv_term(mono(a), sf(p), t, i);
    assert forall|i: int| 0 <= i < N && i != i0 implies #[trigger] f(i) == 0 by {}
    lemma_sum_single(f, N as nat, i0);
    let i = (t - sh) % (N as int);
    if sh < N {
        if t >= sh {
            assert(i == t - sh);
            assert(!wraps_odd(i, a));
        } else {
            assert(i == t - sh + N);
            assert(wraps_odd(i, a));
        }
    } else {
        if t >= sh - N {
            assert(i == t - sh + N);
            assert(wraps_odd(i, a));
        } else {
            assert(i == t - sh + 2 * N);
            assert((i + sh) / (N as int) == 2);
            assert(!wraps_odd(i, a));
        }
    }
}

/// `v_k (X^a c) = X^a (v_k c)` modulo `q`.
proof fn lemma_rotate_entry(x: spec_fn(int) -> int, c: Seq<i64>, a: int, t: int)
    requires
        0 <= t < N,
    ensures
        cv(x, sf(prot(c, a)), t) % (Q as int) == cv(mono(a), cvf(x, sf(c)), t) % (Q as int),
{
    let q = Q as int;
    let m = mono(a);
    assert(cong(sf(prot(c, a)), cvf(m, sf(c)))) by {
        assert forall|u: int| 0 <= u < N implies #[trigger] sf(prot(c, a))(u) % q == cvf(m, sf(c))(u) % q by {
            lemma_prot_is_cv(c, a, u);
            lemma_mod_twice(cv(m, sf(c), u), q);
        }
    }
    lemma_cv_cong_right(x, sf(prot(c, a)), cvf(m, sf(c)), t);
    cv_associates(x, m, sf(c), t);
    assert(cong(cvf(x, m), cvf(m, x))) by {
        assert forall|u: int| 0 <= u < N implies #[trigger] cvf(x, m)(u) % q == cvf(m, x)(u) % q by {
            cv_commutes(x, m, u);
        }
    }
    lemma_cv_cong_left(cvf(x, m), cvf(m, x), sf(c), t);
    cv_associates(m, x, sf(c), t);
}

/// The shape of a ciphertext: `2 x 2L`, every entry stored.
pub open spec fn ct_shape(c: PolyMat) -> bool {
    &&& c.rows == 2
    &&& c.cols == 2 * L
    &&& c.data.len() == 4 * L
}

/// The phase of `X^a C` is `X^a` times the phase of `C`, modulo `q`.
pub proof fn lemma_phase_of_rotation(v: PolyMat, c: PolyMat, a: int, j: int, t: int)
    requires
        ct_shape(c),
        0 <= j < 2 * L,
        0 <= t < N,
    ensures
        phase_fn(v, pm_rotate(c, a), j)(t) % (Q as int) == cv(mono(a), phase_fn(v, c, j), t) % (Q as int),
{
    let q = Q as int;
    let rc = pm_rotate(c, a);
    let m = mono(a);
    let v0 = sf(v.entry(0, 0));
    let v1 = sf(v.entry(1, 0));
    let x0 = j;
    let x1 = 2 * L + j;
    assert(rc.cols == 2 * L);
    assert(rc.data[x0] == prot(c.data[x0], a));
    assert(rc.data[x1] == prot(c.data[x1], a));
    lemma_rphase_two(v, rc, j, t);
    lemma_rotate_entry(v0, c.data[x0], a, t);
    lemma_rotate_entry(v1, c.data[x1], a, t);
    lemma_cong_add(
        cv(v0, sf(rc.data[x0]), t),
        cv(m, cvf(v0, sf(c.data[x0])), t),
        cv(v1, sf(rc.data[x1]), t),
        cv(m, cvf(v1, sf(c.data[x1])), t),
        q,
    );
    let w = fadd(cvf(v0, sf(c.data[x0])), cvf(v1, sf(c.data[x1])));
    lemma_cv_add_right(m, cvf(v0, sf(c.data[x0])), cvf(v1, sf(c.data[x1])), t);
    assert(cong(w, phase_fn(v, c, j))) by {
        assert forall|u: int| 0 <= u < N implies #[trigger] w(u) % q == phase_fn(v, c, j)(u) % q by {
            lemma_rphase_two(v, c, j, u);
        }
    }
    lemma_cv_cong_right(m, w, phase_fn(v, c, j), t);
}

/// The gadget part of an encryption of `m` adds `2^(col mod L)` times row
/// `col / L` of the secret times `m`, modulo `q`.
pub proof fn lemma_gadget_phase_poly(v: PolyMat, m: Seq<i64>, col: int, t: int)
    requires
        0 <= col < 2 * L,
        0 <= t < N,
    ensures
        gadget_phase(v, m, col, t) % (Q as int) == (pow2((col % (L as int)) as nat) * cv(
            sf(v.entry(col / (L as int), 0)),
            sf(m),
            t,
        )) % (Q as int),
{
    let q = Q as int;
    let g = pm_gadget(m);
    let k = col / (L as int);
    let i = col % (L as int);
    crate::rgsw::poly::lemma_rm_unflat(0, col, 2 * L as int);
    crate::rgsw::poly::lemma_rm_unflat(1, col, 2 * L as int);
    let pw = pow2(i as nat) as int;
    let own = g.data[k * (2 * L) + col];
    let other = g.data[(1 - k) * (2 * L) + col];
    assert(own == pmul(pconst(pw), m));
    assert(other == pzero());
    assert(cong(sf(own), fscale(pw, sf(m)))) by {
        assert forall|u: int| 0 <= u < N implies #[trigger] sf(own)(u) % q == fscale(pw, sf(m))(u) % q by {
            lemma_pmul_is_cv(pconst(pw), m, u);
            lemma_cv_const_left(pw, sf(m), u);
            lemma_mod_twice(cv(sf(pconst(pw)), sf(m), u), q);
        }
    }
    let vk = sf(v.entry(k, 0));
    let vo = sf(v.entry(1 - k, 0));
    lemma_cv_cong_right(vk, sf(own), fscale(pw, sf(m)), t);
    lemma_cv_scale_right(pw, vk, sf(m), t);
    assert forall|jj: int| 0 <= jj < N implies #[trigger] cv_term(vo, sf(other), t, jj) == 0 by {
        if t >= jj {
            assert(sf(other)(t - jj) == pzero()[t - jj]);
        } else {
            assert(sf(other)(t - jj + N) == pzero()[t - jj + N]);
        }
        assert(xshift(sf(other), jj, t) == 0);
    }
    crate::arith::lemma_sum_zero(|jj: int| cv_term(vo, sf(other), t, jj), N as nat);
    if k == 0 {
        assert(gadget_phase(v, m, col, t) == cv(vk, sf(own), t) + cv(vo, sf(other), t));
    } else {
        assert(gadget_phase(v, m, col, t) == cv(vo, sf(other), t) + cv(vk, sf(own), t));
    }
}

/// The function `u -> gadget_phase(v, m, col, u)`.
pub open spec fn gphase_fn(v: PolyMat, m: Seq<i64>, col: int) -> spec_fn(int) -> int {
    |u: int| gadget_phase(v, m, col, u)
}

/// The gadget part of an encryption of `X^a m` is `X^a` times that of `m`.
pub proof fn lemma_gadget_phase_rotation(v: PolyMat, m: Seq<i64>, a: int, col: int, t: int)
    requires
        0 <= col < 2 * L,
        0 <= t < N,
    ensures
        gadget_phase(v, prot(m, a), col, t) % (Q as int) == cv(mono(a), gphase_fn(v, m, col), t) % (Q as int),
{
    let q = Q as int;
    let k = col / (L as int);
    let pw = pow2((col % (L as int)) as nat) as int;
    let vk = sf(v.entry(k, 0));
    let mo = mono(a);
    lemma_gadget_phase_poly(v, prot(m, a), col, t);
    lemma_rotate_entry(vk, m, a, t);
    lemma_mul_mod_noop_right(pw, cv(vk, sf(prot(m, a)), t), q);
    lemma_mul_mod_noop_right(pw, cv(mo, cvf(vk, sf(m)), t), q);
    assert(cong(gphase_fn(v, m, col), fscale(pw, cvf(vk, sf(m))))) by {
        assert forall|u: int| 0 <= u < N implies #[trigger] gphase_fn(v, m, col)(u) % q == fscale(pw, cvf(vk, sf(m)))(
            u,
        ) % q by {
            lemma_gadget_phase_poly(v, m, col, u);
        }
    }
    lemma_cv_cong_right(mo, gphase_fn(v, m, col), fscale(pw, cvf(vk, sf(m))), t);
    lemma_cv_scale_right(pw, mo, cvf(vk, sf(m)), t);
}

/// A value of `[0, q)` moved into `(-q/2, q/2]`.
pub open spec fn rcentered(y: int) -> int {
    if y > Q / 2 { y - Q } else { y }
}

/// The noise of column `j` of `c` as an encryption of `m`, at coefficient `t`: the
/// phase minus what the gadget part of `m` adds, centred modulo `q`.
pub open spec fn bnoise(v: PolyMat, c: PolyMat, m: Seq<i64>, j: int, t: int) -> int {
    rcentered((phase_fn(v, c, j)(t) - gadget_phase(v, m, j, t)) % (Q as int))
}

/// `c` is a ciphertext of reduced entries that encrypts the polynomial `m` under
/// `v` with noise at most `b` in every column and coefficient.
pub open spec fn rnoisy(v: PolyMat, c: PolyMat, m: Seq<i64>, b: int) -> bool {
    &&& ct_shape(c)
    &&& entries_reduced(c)
    &&& forall|j: int, t: int| 0 <= j < 2 * L && 0 <= t < N ==> abs(#[trigger] bnoise(v, c, m, j, t)) <= b
}

/// The phase is the noise plus the gadget part, modulo `q`.
pub proof fn lemma_phase_from_bnoise(v: PolyMat, c: PolyMat, m: Seq<i64>, j: int, t: int)
    ensures
        phase_fn(v, c, j)(t) % (Q as int) == (bnoise(v, c, m, j, t) + gadget_phase(v, m, j, t)) % (Q as int),
{
    let q = Q as int;
    let p = phase_fn(v, c, j)(t);
    let g = gadget_phase(v, m, j, t);
    let y = (p - g) % q;
    if y > Q / 2 {
        lemma_mod_sub_multiples_vanish(y, q);
    }
    assert(bnoise(v, c, m, j, t) % q == y % q);
    lemma_mod_twice(p - g, q);
    lemma_add_mod_noop(bnoise(v, c, m, j, t), g, q);
    lemma_add_mod_noop(p - g, g, q);
}

/// A phase that is `x + (gadget part)` modulo `q`, with `|x| < q/2`, has noise `x`.
pub proof fn lemma_bnoise_is(v: PolyMat, c: PolyMat, m: Seq<i64>, j: int, t: int, x: int)
    requires
        phase_fn(v, c, j)(t) % (Q as int) == (x + gadget_phase(v, m, j, t)) % (Q as int),
        abs(x) < Q / 2,
    ensures
        bnoise(v, c, m, j, t) == x,
{
    let q = Q as int;
    let g = gadget_phase(v, m, j, t);
    lemma_sub_mod_noop(phase_fn(v, c, j)(t), g, q);
    lemma_sub_mod_noop(x + g, g, q);
    if x >= 0 {
        lemma_small_mod(x as nat, q as nat);
    } else {
        lemma_mod_add_multiples_vanish(x, q);
        lemma_small_mod((x + q) as nat, q as nat);
    }
}

/// A fresh encryption has noise at most `M N = 64`: in every column `j` and at
/// every coefficient `t`, the phase `v^T C` is the gadget part `m v^T G` plus an
/// error of magnitude at most 64, modulo `q`.
pub proof fn lemma_fresh_noisy(v: PolyMat, a: PolyMat, m: Seq<i64>, c: PolyMat)
    requires
        is_rgsw_keypair(v, a),
        is_rgsw_encryption(a, m, c),
    ensures
        rnoisy(v, c, m, 64),
{
    let (s, e) = choose|s: Seq<i64>, e: Seq<Seq<i64>>| is_rgsw_secret(v, s) && #[trigger] rlwe_relation(a, s, e);
    let r = choose|r: PolyMat| #[trigger] renc_relation(a, r, m, c);
    lemma_encryption_shape(a, m, c);
    assert forall|j: int, t: int| 0 <= j < 2 * L && 0 <= t < N implies abs(#[trigger] bnoise(v, c, m, j, t)) <= 64 by {
        lemma_phase_general(v, a, s, e, r, m, c, j, t);
        lemma_rnoise_bound(a, s, e, r, m, c, j, t);
        lemma_bnoise_is(v, c, m, j, t, rnoise(e, r, j, t));
    }
}

/// `X^a` moves coefficients around and flips signs: `|(X^a f)_t| <= b` when every
/// `|f_u| <= b`.
proof fn lemma_mono_bound(f: spec_fn(int) -> int, a: int, b: int, t: int)
    requires
        forall|u: int| 0 <= u < N ==> abs(#[trigger] f(u)) <= b,
        0 <= t < N,
    ensures
        abs(cv(mono(a), f, t)) <= b,
{
    let sh = shift_of(a);
    let i0 = if sh < N { sh } else { sh - N };
    let g = |i: int| cv_term(mono(a), f, t, i);
    assert forall|i: int| 0 <= i < N && i != i0 implies #[trigger] g(i) == 0 by {}
    lemma_sum_single(g, N as nat, i0);
    if t >= i0 {
        assert(abs(f(t - i0)) <= b);
    } else {
        assert(abs(f(t - i0 + N)) <= b);
    }
}

/// Rotating a noisy encryption of `m` by `X^a` gives a noisy encryption of `X^a m`
/// with the same noise bound.
pub proof fn lemma_noisy_rotation(v: PolyMat, c: PolyMat, m: Seq<i64>, b: int, a: int)
    requires
        rnoisy(v, c, m, b),
        b < 8589934592,
    ensures
        rnoisy(v, pm_rotate(c, a), prot(m, a), b),
{
    let q = Q as int;
    let rc = pm_rotate(c, a);
    let mo = mono(a);
    assert(rc.data.len() == 4 * L) by (nonlinear_arith)
        requires
            rc.data.len() == c.rows * c.cols,
            c.rows == 2,
            c.cols == 2 * L,
    ;
    assert forall|x: int| 0 <= x < rc.data.len() implies coefs_within(#[trigger] rc.data[x], 0, Q - 1) by {}
    assert forall|j: int, t: int| 0 <= j < 2 * L && 0 <= t < N implies abs(#[trigger] bnoise(v, rc, prot(m, a), j, t))
        <= b by {
        let e = |u: int| bnoise(v, c, m, j, u);
        let g = gphase_fn(v, m, j);
        lemma_phase_of_rotation(v, c, a, j, t);
        assert(cong(phase_fn(v, c, j), fadd(e, g))) by {
            assert forall|u: int| 0 <= u < N implies #[trigger] phase_fn(v, c, j)(u) % q == fadd(e, g)(u) % q by {
                lemma_phase_from_bnoise(v, c, m, j, u);
            }
        }
        lemma_cv_cong_right(mo, phase_fn(v, c, j), fadd(e, g), t);
        lemma_cv_add_right(mo, e, g, t);
        lemma_gadget_phase_rotation(v, m, a, j, t);
        let x = cv(mo, e, t);
        lemma_cong_add(x, x, cv(mo, g, t), gadget_phase(v, prot(m, a), j, t), q);
        assert forall|u: int| 0 <= u < N implies abs(#[trigger] e(u)) <= b by {}
        lemma_mono_bound(e, a, b, t);
        lemma_bnoise_is(v, rc, prot(m, a), j, t, x);
    }
}

/// `x (a - b) = x a - x b` modulo `q`, for an entry computed as `pdiff`.
proof fn lemma_diff_entry(x: spec_fn(int) -> int, p: Seq<i64>, r: Seq<i64>, t: int)
    requires
        0 <= t < N,
    ensures
        cv(x, sf(pdiff(p, r)), t) % (Q as int) == (cv(x, sf(p), t) - cv(x, sf(r), t)) % (Q as int),
{
    let q = Q as int;
    assert(cong(sf(pdiff(p, r)), fadd(sf(p), fneg(sf(r))))) by {
        assert forall|u: int| 0 <= u < N implies #[trigger] sf(pdiff(p, r))(u) % q == fadd(sf(p), fneg(sf(r)))(u) % q by {
            lemma_mod_twice(p[u] - r[u], q);
        }
    }
    lemma_cv_cong_right(x, sf(pdiff(p, r)), fadd(sf(p), fneg(sf(r))), t);
    lemma_cv_add_right(x, sf(p), fneg(sf(r)), t);
    cv_commutes(x, fneg(sf(r)), t);
    cv_commutes(x, sf(r), t);
    lemma_cv_neg_left(sf(r), x, t);
}

/// The phase of an entrywise difference is the difference of the phases, modulo `q`.
proof fn lemma_phase_of_diff(v: PolyMat, x: PolyMat, y: PolyMat, j: int, t: int)
    requires
        ct_shape(x),
        ct_shape(y),
        0 <= j < 2 * L,
        0 <= t < N,
    ensures
        phase_fn(v, pm_diff(x, y), j)(t) % (Q as int) == (phase_fn(v, x, j)(t) - phase_fn(v, y, j)(t)) % (Q as int),
{
    let q = Q as int;
    let d = pm_diff(x, y);
    let v0 = sf(v.entry(0, 0));
    let v1 = sf(v.entry(1, 0));
    let x0 = j;
    let x1 = 2 * L + j;
    assert(d.cols == 2 * L);
    assert(d.data[x0] == pdiff(x.data[x0], y.data[x0]));
    assert(d.data[x1] == pdiff(x.data[x1], y.data[x1]));
    lemma_rphase_two(v, d, j, t);
    lemma_rphase_two(v, x, j, t);
    lemma_rphase_two(v, y, j, t);
    lemma_diff_entry(v0, x.data[x0], y.data[x0], t);
    lemma_diff_entry(v1, x.data[x1], y.data[x1], t);
    let a0 = cv(v0, sf(x.data[x0]), t);
    let b0 = cv(v0, sf(y.data[x0]), t);
    let a1 = cv(v1, sf(x.data[x1]), t);
    let b1 = cv(v1, sf(y.data[x1]), t);
    lemma_cong_add(cv(v0, sf(d.data[x0]), t), a0 - b0, cv(v1, sf(d.data[x1]), t), a1 - b1, q);
    lemma_sub_mod_noop(phase_fn(v, x, j)(t), phase_fn(v, y, j)(t), q);
    lemma_sub_mod_noop(a0 + a1, b0 + b1, q);
}

/// One controlled rotation: for a noisy encryption of `m` and a fresh encryption
/// of the bit `s`, `ACC + BK G^-1(ACC X^-a - ACC)` encrypts `X^-a m` when `s = 1`
/// and `m` when `s = 0`, with noise grown by at most `2L N 64`.
pub proof fn lemma_noisy_cmux(v: PolyMat, key: PolyMat, c: PolyMat, m: Seq<i64>, b: int, bk: PolyMat, s: int, a: int)
    requires
        is_rgsw_keypair(v, key),
        rnoisy(v, c, m, b),
        s == 0 || s == 1,
        is_rgsw_encryption(key, pconst(s), bk),
        b + 71680 < 8589934592,
    ensures
        rnoisy(v, cmux_step(c, bk, a), if s == 1 { prot(m, -a) } else { m }, b + 71680),
{
    let q = Q as int;
    lemma_encryption_shape(key, pconst(s), bk);
    let rc = pm_rotate(c, -a);
    let d = pm_diff(rc, c);
    let z = pm_ginv(d);
    let p = pm_product(bk, z, (2 * L) as nat);
    let nw = cmux_step(c, bk, a);
    let m2 = if s == 1 { prot(m, -a) } else { m };
    lemma_noisy_rotation(v, c, m, b, -a);
    assert(d.data.len() == 4 * L);
    assert(ct_shape(d));
    assert forall|x: int| 0 <= x < d.data.len() implies coefs_within(#[trigger] d.data[x], 0, Q - 1) by {}
    assert(p.data.len() == 4 * L) by (nonlinear_arith)
        requires
            p.data.len() == bk.rows * z.cols,
            bk.rows == 2,
            z.cols == 2 * L,
    ;
    assert forall|x: int| 0 <= x < p.data.len() implies coefs_within(#[trigger] p.data[x], 0, Q - 1) by {
        crate::rgsw::poly::lemma_pm_dot_reduced(bk, z, x / (2 * L as int), x % (2 * L as int), (2 * L) as nat);
    }
    assert(nw == pm_add(c, p));
    assert(nw.data.len() == 4 * L);
    assert forall|x: int| 0 <= x < nw.data.len() implies coefs_within(#[trigger] nw.data[x], 0, Q - 1) by {}
    assert forall|j: int, t: int| 0 <= j < 2 * L && 0 <= t < N implies abs(#[trigger] bnoise(v, nw, m2, j, t))
        <= b + 71680 by {
        lemma_phase_of_sum(v, c, p, j, t);
        let bkn = lemma_mul_phase_any(v, key, s, bk, d, j, t);
        lemma_phase_of_diff(v, rc, c, j, t);
        let pc = phase_fn(v, c, j)(t);
        let prc = phase_fn(v, rc, j)(t);
        let pd = phase_fn(v, d, j)(t);
        let pp = phase_fn(v, p, j)(t);
        lemma_mul_mod_noop_right(s, pd, q);
        lemma_mul_mod_noop_right(s, prc - pc, q);
        lemma_cong_add(bkn, bkn, s * pd, s * (prc - pc), q);
        assert(pp % q == (bkn + s * (prc - pc)) % q);
        lemma_cong_add(pc, pc, pp, bkn + s * (prc - pc), q);
        assert(phase_fn(v, nw, j)(t) % q == (pc + (bkn + s * (prc - pc))) % q);
        if s == 1 {
            let e = bnoise(v, rc, m2, j, t);
            lemma_phase_from_bnoise(v, rc, m2, j, t);
            assert(pc + (bkn + 1 * (prc - pc)) == prc + bkn);
            lemma_cong_add(prc, e + gadget_phase(v, m2, j, t), bkn, bkn, q);
            assert(phase_fn(v, nw, j)(t) % q == ((e + bkn) + gadget_phase(v, m2, j, t)) % q);
            lemma_bnoise_is(v, nw, m2, j, t, e + bkn);
        } else {
            let e = bnoise(v, c, m, j, t);
            lemma_phase_from_bnoise(v, c, m, j, t);
            assert(pc + (bkn + 0 * (prc - pc)) == pc + bkn);
            lemma_cong_add(pc, e + gadget_phase(v, m, j, t), bkn, bkn, q);
            assert(phase_fn(v, nw, j)(t) % q == ((e + bkn) + gadget_phase(v, m2, j, t)) % q);
            lemma_bnoise_is(v, nw, m2, j, t, e + bkn);
        }
    }
}

/// `sum_{i < n} a_i s_i`: how far blind rotation turns back the accumulator.
pub open spec fn rot_total(a: Seq<i64>, sk: Seq<int>, n: nat) -> int
    decreases n,
{
    if n == 0 {
        0
    } else {
        rot_total(a, sk, (n - 1) as nat) + a[n - 1] * sk[n - 1]
    }
}

/// The key bits drive blind rotation: each non-zero `a_i` has a fresh encryption
/// of the bit `s_i` in the key.
pub open spec fn key_encrypts(key: PolyMat, bks: Seq<PolyMat>, sk: Seq<int>, a: Seq<i64>) -> bool {
    &&& sk.len() == a.len()
    &&& forall|i: int|
        0 <= i < a.len() && #[trigger] a[i] != 0 ==> {
            &&& i < bks.len()
            &&& sk[i] == 0 || sk[i] == 1
            &&& is_rgsw_encryption(key, pconst(sk[i]), bks[i])
        }
}

/// A noise bound can be loosened.
proof fn lemma_noisy_weaken(v: PolyMat, c: PolyMat, m: Seq<i64>, b: int, b2: int)
    requires
        rnoisy(v, c, m, b),
        b <= b2,
    ensures
        rnoisy(v, c, m, b2),
{
}

/// After the first `n` steps of blind rotation, the accumulator encrypts the test
/// polynomial times `X^(b - sum_{i < n} a_i s_i)` with noise at most
/// `64 + n 2L N 64`.
pub proof fn lemma_blind_rotate_noisy(
    v: PolyMat,
    key: PolyMat,
    acc: PolyMat,
    p: Seq<i64>,
    bks: Seq<PolyMat>,
    sk: Seq<int>,
    a: Seq<i64>,
    b: int,
    n: nat,
)
    requires
        is_rgsw_keypair(v, key),
        is_rgsw_encryption(key, p, acc),
        p.len() == N,
        key_encrypts(key, bks, sk, a),
        n <= a.len(),
        64 + n * 71680 < 8589934592,
    ensures
        rnoisy(v, blind_rotate_spec(acc, bks, a, b, n), prot(p, b - rot_total(a, sk, n)), (64 + n * 71680) as int),
    decreases n,
{
    if n == 0 {
        lemma_fresh_noisy(v, key, p, acc);
        lemma_noisy_rotation(v, acc, p, 64, b);
    } else {
        let n1 = (n - 1) as nat;
        lemma_blind_rotate_noisy(v, key, acc, p, bks, sk, a, b, n1);
        let prev = blind_rotate_spec(acc, bks, a, b, n1);
        let bound: int = (64 + n1 * 71680) as int;
        let sh = b - rot_total(a, sk, n1);
        let mu = prot(p, sh);
        let ai = a[n1 as int];
        assert(64 + n * 71680 == bound + 71680);
        if ai == 0 {
            assert(rot_total(a, sk, n) == rot_total(a, sk, n1));
            lemma_noisy_weaken(v, prev, mu, bound, bound + 71680);
        } else {
            let si = sk[n1 as int];
            assert(si == 0 || si == 1);
            lemma_noisy_cmux(v, key, prev, mu, bound, bks[n1 as int], si, ai as int);
            if si == 1 {
                rotation_composes(p, sh, -ai);
                assert(rot_total(a, sk, n) == rot_total(a, sk, n1) + ai);
            } else {
                assert(rot_total(a, sk, n) == rot_total(a, sk, n1));
            }
        }
    }
}

/// A phase `x + m q/2` with `|x| < q/4` decodes to `m mod 2`, for any integer `m`.
proof fn lemma_rdecode_bit_any(x: int, m: int)
    requires
        abs(x) < 8589934592,
    ensures
        rdecode_bit((x + m * 17179869184) % (Q as int)) == m % 2,
{
    let q = Q as int;
    let r = m % 2;
    let k = m / 2;
    assert(m * 17179869184 == k * q + r * 17179869184) by (nonlinear_arith)
        requires
            m == 2 * k + r,
            q == 34359738368,
    ;
    lemma_mod_multiples_vanish(k, x + r * 17179869184, q);
    assert(x + m * 17179869184 == k * q + (x + r * 17179869184));
    crate::rgsw::correctness::lemma_rdecode_bit(x, r);
}

/// Blind rotation rotates the encrypted test polynomial: for an encryption of `p`
/// under an RGSW key pair, a bootstrapping key that encrypts the LWE secret bits
/// `s_i` where `a_i` is non-zero, and fewer than 119836 coefficients, the
/// accumulator that `blind_rotate` returns encrypts `p X^(b - sum_i a_i s_i)`,
/// with noise at most `64 + 2L N 64` per coefficient of `a`; decrypting it as
/// packed bits gives the coefficients of that product modulo 2.
pub proof fn blind_rotation_rotates(
    v: PolyMat,
    key: PolyMat,
    acc: PolyMat,
    p: Seq<i64>,
    bks: Seq<PolyMat>,
    sk: Seq<int>,
    a: Seq<i64>,
    b: int,
)
    requires
        is_rgsw_keypair(v, key),
        is_rgsw_encryption(key, p, acc),
        p.len() == N,
        key_encrypts(key, bks, sk, a),
        a.len() < 119836,
    ensures
        rnoisy(
            v,
            blind_rotate_spec(acc, bks, a, b, a.len()),
            prot(p, b - rot_total(a, sk, a.len())),
            (64 + a.len() * 71680) as int,
        ),
        forall|t: int|
            0 <= t < N ==> #[trigger] rdecode_bit(
                rphase(v, blind_rotate_spec(acc, bks, a, b, a.len()), 2 * L - 1, v.rows)[t] as int,
            ) == prot(p, b - rot_total(a, sk, a.len()))[t] % 2,
{
    let q = Q as int;
    let n = a.len();
    assert(64 + n * 71680 < 8589934592);
    lemma_blind_rotate_noisy(v, key, acc, p, bks, sk, a, b, n);
    let r = blind_rotate_spec(acc, bks, a, b, n);
    let mu = prot(p, b - rot_total(a, sk, n));
    let j = 2 * L - 1;
    assert forall|t: int| 0 <= t < N implies #[trigger] rdecode_bit(rphase(v, r, j, v.rows)[t] as int) == mu[t] % 2 by {
        let e = bnoise(v, r, mu, j, t);
        assert(abs(e) <= 64 + n * 71680);
        lemma_phase_from_bnoise(v, r, mu, j, t);
        lemma_gadget_phase_poly(v, mu, j, t);
        crate::rgsw::correctness::lemma_pow2_top();
        assert(j % (L as int) == L - 1 && j / (L as int) == 1);
        assert(pow2((j % (L as int)) as nat) == 17179869184);
        lemma_cv_const_left(1, sf(mu), t);
        let g = gadget_phase(v, mu, j, t);
        let w = cv(sf(v.entry(1, 0)), sf(mu), t);
        lemma_mul_mod_noop_right(17179869184, w, q);
        lemma_mul_mod_noop_right(17179869184, mu[t] as int, q);
        assert(g % q == (mu[t] * 17179869184) % q);
        lemma_cong_add(e, e, g, mu[t] * 17179869184, q);
        let ph = rphase(v, r, j, 2)[t] as int;
        lemma_rphase_two(v, r, j, t);
        lemma_small_mod(ph as nat, q as nat);
        lemma_rdecode_bit_any(e, mu[t] as int);
    }
}

/// The LWE key under which sample extraction's output decrypts: from the first
/// entry `v_0 = -s` of the RGSW secret, `key_0 = -v_0[0]` and
/// `key_i = v_0[N - i]` for `i > 0`, each modulo `q`.
pub open spec fn extracted_key(v0: Seq<i64>) -> Seq<int> {
    Seq::new(
        N as nat,
        |i: int| if i == 0 { (-(v0[0] as int)) % (Q as int) } else { (v0[N - i] as int) % (Q as int) },
    )
}

/// `b - sum_i a_i key_i`, the LWE phase of `(a, b)` under `key`.
pub open spec fn lwe_phase(a: Seq<i64>, b: int, key: Seq<int>) -> int {
    b - sum(|i: int| a[i] * key[i], N as nat)
}

/// Sixteen terms of a sum written out.
proof fn lemma_sum16_int(f: spec_fn(int) -> int)
    ensures
        sum(f, 16) == f(0) + f(1) + f(2) + f(3) + f(4) + f(5) + f(6) + f(7) + f(8) + f(9) + f(10) + f(11) + f(12) + f(13) + f(14) + f(15),
{
    reveal_with_fuel(sum, 17);
}

/// Coefficient `0` of `v_0 c_0` is minus the inner product of the coefficients of
/// `c_0` with the extracted key, modulo `q`.
proof fn lemma_extraction(v0: Seq<i64>, c0: Seq<i64>)
    ensures
        (cv(sf(v0), sf(c0), 0) + sum(|i: int| c0[i] * extracted_key(v0)[i], N as nat)) % (Q as int) == 0,
{
    let q = Q as int;
    let k = extracted_key(v0);
    let kr = |i: int| if i == 0 { -(v0[0] as int) } else { v0[N - i] as int };
    let f = |i: int| c0[i] * k[i];
    let g = |i: int| c0[i] * kr(i);
    assert forall|i: int| 0 <= i < N implies #[trigger] f(i) % q == g(i) % q by {
        lemma_mul_mod_noop_right(c0[i] as int, kr(i), q);
    }
    lemma_sum_mod(f, g, N as nat, q);
    lemma_sum_ext(|i: int| c0[i] * extracted_key(v0)[i], f, N as nat);
    let h = |i: int| cv_term(sf(v0), sf(c0), 0, i);
    lemma_sum16_int(g);
    lemma_sum16_int(h);
    assert(h(0) + g(0) == 0) by {
        lemma_mul_is_commutative(v0[0] as int, c0[0] as int);
        assert(c0[0] * (-(v0[0] as int)) == -(c0[0] * v0[0])) by (nonlinear_arith);
    }
    assert forall|i: int| 1 <= i < N implies #[trigger] h(i) + g(N - i) == 0 by {
        assert(h(i) == v0[i] * (-(c0[N - i] as int)));
        assert(g(N - i) == c0[N - i] * v0[i]);
        assert(v0[i] * (-(c0[N - i] as int)) == -(c0[N - i] * v0[i])) by (nonlinear_arith);
    }
    assert(h(1) + g(15) == 0 && h(2) + g(14) == 0 && h(3) + g(13) == 0 && h(4) + g(12) == 0 && h(5) + g(11) == 0);
    assert(h(6) + g(10) == 0 && h(7) + g(9) == 0 && h(8) + g(8) == 0 && h(9) + g(7) == 0 && h(10) + g(6) == 0);
    assert(h(11) + g(5) == 0 && h(12) + g(4) == 0 && h(13) + g(3) == 0 && h(14) + g(2) == 0 && h(15) + g(1) == 0);
    assert(sum(h, 16) + sum(g, 16) == 0);
    lemma_add_mod_noop(cv(sf(v0), sf(c0), 0), sum(f, N as nat), q);
    lemma_add_mod_noop(cv(sf(v0), sf(c0), 0), sum(g, N as nat), q);
}

/// Bootstrapping refreshes the ciphertext: with the inputs of
/// `blind_rotation_rotates`, the LWE sample `(a, b)` that `bootstrap` extracts
/// decrypts under the extracted key to the constant coefficient of
/// `p X^(b - sum_i a_i s_i)`, up to a noise of at most `64 + 2L N 64` per
/// coefficient of `a`.
pub proof fn bootstrap_extracts(
    v: PolyMat,
    key: PolyMat,
    acc: PolyMat,
    p: Seq<i64>,
    bks: Seq<PolyMat>,
    sk: Seq<int>,
    a: Seq<i64>,
    b: int,
)
    requires
        is_rgsw_keypair(v, key),
        is_rgsw_encryption(key, p, acc),
        p.len() == N,
        key_encrypts(key, bks, sk, a),
        a.len() < 119836,
    ensures
        ({
            let r = blind_rotate_spec(acc, bks, a, b, a.len());
            let mu = prot(p, b - rot_total(a, sk, a.len()));
            abs(
                rcentered(
                    (lwe_phase(r.data[L as int], r.data[r.cols + L][0] as int, extracted_key(v.entry(0, 0)))
                        - mu[0]) % (Q as int),
                ),
            ) <= 64 + a.len() * 71680
        }),
{
    let q = Q as int;
    let n = a.len();
    blind_rotation_rotates(v, key, acc, p, bks, sk, a, b);
    let r = blind_rotate_spec(acc, bks, a, b, n);
    let mu = prot(p, b - rot_total(a, sk, n));
    let j = L as int;
    let c0 = r.data[j];
    let c1 = r.data[r.cols + j];
    let e = bnoise(v, r, mu, j, 0);
    assert(abs(e) <= 64 + n * 71680);
    // The phase of column L at coefficient 0 is the noise plus mu_0.
    lemma_phase_from_bnoise(v, r, mu, j, 0);
    lemma_gadget_phase_poly(v, mu, j, 0);
    assert(j % (L as int) == 0 && j / (L as int) == 1);
    lemma_cv_const_left(1, sf(mu), 0);
    let g = gadget_phase(v, mu, j, 0);
    assert(pow2(0) == 1) by {
        vstd::arithmetic::power2::lemma2_to64();
    }
    let (s, ee) = choose|s: Seq<i64>, ee: Seq<Seq<i64>>| is_rgsw_secret(v, s) && #[trigger] rlwe_relation(key, s, ee);
    assert(v.entry(1, 0) == pconst(1));
    assert(sf(v.entry(1, 0)) == sf(pconst(1)));
    assert(g % q == (1 * cv(sf(v.entry(1, 0)), sf(mu), 0)) % q);
    assert(g % q == (mu[0] as int) % q);
    lemma_cong_add(e, e, g, mu[0] as int, q);
    // The phase is v_0 c_0 + c_1 at coefficient 0.
    lemma_rphase_two(v, r, j, 0);
    lemma_cv_const_left(1, sf(c1), 0);
    let w0 = cv(sf(v.entry(0, 0)), sf(c0), 0);
    let w1 = cv(sf(v.entry(1, 0)), sf(c1), 0);
    lemma_cong_add(w0, w0, w1, c1[0] as int, q);
    // v_0 c_0 = -<c_0, key> (mod q).
    lemma_extraction(v.entry(0, 0), c0);
    let ip = sum(|i: int| c0[i] * extracted_key(v.entry(0, 0))[i], N as nat);
    let lp = lwe_phase(c0, c1[0] as int, extracted_key(v.entry(0, 0)));
    assert(lp == c1[0] - ip);
    // lp = w0 + w1 = e + mu_0 (mod q)
    assert((w0 + ip) % q == 0);
    lemma_sub_mod_noop(w0 + c1[0], w0 + ip, q);
    assert((w0 + c1[0] - (w0 + ip)) == lp);
    assert(lp % q == (w0 + c1[0]) % q) by {
        lemma_sub_mod_noop(w0 + c1[0], w0 + ip, q);
        lemma_mod_twice(w0 + c1[0], q);
        assert((w0 + ip) % q == 0);
        assert(((w0 + c1[0]) % q - 0) % q == (w0 + c1[0]) % q);
    }
    let ph = phase_fn(v, r, j)(0);
    assert(ph % q == (e + mu[0]) % q);
    lemma_sub_mod_noop(lp, mu[0] as int, q);
    lemma_sub_mod_noop(e + mu[0], mu[0] as int, q);
    assert((lp - mu[0]) % q == e % q);
    if e >= 0 {
        lemma_small_mod(e as nat, q as nat);
    } else {
        lemma_mod_add_multiples_vanish(e, q);
        lemma_small_mod((e + q) as nat, q as nat);
    }
}

} // verus!
