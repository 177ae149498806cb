//! The arithmetic of `Z[X]/(X^N + 1)` behind `Poly::mul`: the negacyclic product
//! is commutative and associative, and reducing modulo `q` commutes with it.
use vstd::prelude::*;
use vstd::arithmetic::div_mod::*;
use vstd::arithmetic::mul::*;
use crate::arith::{sum, lemma_sum_ext, lemma_sum_single, lemma_sum_swap, lemma_sum_scale, lemma_sum_add, lemma_sum_mod};
use crate::params::rgsw::{N, Q};
use super::poly::{nc_term, nc_row, nc_coef, pmul, pconst, padd, pzero};

verus! {

/// The sign with which `X^i * X^j` lands on `X^t` modulo `X^N + 1`, for
/// `0 <= i, j, t < N`.
pub open spec fn sg(i: int, j: int, t: int) -> int {
    if i + j == t {
        1
    } else if i + j == t + N {
        -1
    } else {
        0
    }
}

/// Coefficient `t` of `X^i * y` in `Z[X]/(X^N + 1)`, for `0 <= i, t < N`.
pub open spec fn xshift(y: spec_fn(int) -> int, i: int, t: int) -> int {
    if t >= i {
        y(t - i)
    } else {
        -y(t - i + N)
    }
}

/// Term `i` of coefficient `t` of `x * y`: `x_i` times coefficient `t` of `X^i y`.
pub open spec fn cv_term(x: spec_fn(int) -> int, y: spec_fn(int) -> int, t: int, i: int) -> int {
    x(i) * xshift(y, i, t)
}

/// Coefficient `t` of `x * y` in `Z[X]/(X^N + 1)`, before any reduction.
pub open spec fn cv(x: spec_fn(int) -> int, y: spec_fn(int) -> int, t: int) -> int {
    sum(|i: int| cv_term(x, y, t, i), N as nat)
}

/// The coefficients of a stored polynomial as a function.
pub open spec fn sf(a: Seq<i64>) -> spec_fn(int) -> int {
    |i: int| a[i] as int
}

/// The term of `sum_j sg(i, j, t) y_j`.
pub open spec fn sg_term(y: spec_fn(int) -> int, i: int, t: int, j: int) -> int {
    sg(i, j, t) * y(j)
}

/// `X^i y` at `t` is `sum_j sg(i, j, t) y_j`.
pub proof fn lemma_xshift_as_sum(y: spec_fn(int) -> int, i: int, t: int)
    requires
        0 <= i < N,
        0 <= t < N,
    ensures
        xshift(y, i, t) == sum(|j: int| sg_term(y, i, t, j), N as nat),
{
    let j0 = if t >= i { t - i } else { t - i + N };
    let f = |j: int| sg_term(y, i, t, j);
    assert forall|j: int| 0 <= j < N && j != j0 implies #[trigger] f(j) == 0 by {}
    lemma_sum_single(f, N as nat, j0);
}

/// The negacyclic coefficient that `Poly::mul` reduces is `cv` of the
/// coefficient functions.
pub proof fn lemma_nc_coef_is_cv(a: Seq<i64>, b: Seq<i64>, t: int)
    requires
        0 <= t < N,
    ensures
        nc_coef(a, b, t) == cv(sf(a), sf(b), t),
{
    assert forall|i: int| 0 <= i < N implies #[trigger] nc_row(a, b, t, i, N as nat) == cv_term(
        sf(a),
        sf(b),
        t,
        i,
    ) by {
        let j0 = if t >= i { t - i } else { t - i + N };
        let f = |j: int| nc_term(a, b, i, j, t);
        assert forall|j: int| 0 <= j < N && j != j0 implies #[trigger] f(j) == 0 by {}
        lemma_sum_single(f, N as nat, j0);
        lemma_sum_ext(f, |j: int| nc_term(a, b, i, j, t), N as nat);
        if t < i {
            assert(a[i] * (-b[j0]) == -(a[i] * b[j0])) by (nonlinear_arith);
        }
    }
    lemma_sum_ext(
        |i: int| nc_row(a, b, t, i, N as nat),
        |i: int| cv_term(sf(a), sf(b), t, i),
        N as nat,
    );
}

/// Term `(i, j)` of the double sum for coefficient `t` of `x * y`.
pub open spec fn cv2_term(x: spec_fn(int) -> int, y: spec_fn(int) -> int, t: int, i: int, j: int) -> int {
    sg(i, j, t) * x(i) * y(j)
}

/// Row `i` of the double sum.
pub open spec fn cv2_row(x: spec_fn(int) -> int, y: spec_fn(int) -> int, t: int, i: int) -> int {
    sum(|j: int| cv2_term(x, y, t, i, j), N as nat)
}

/// The double sum `sum_i sum_j sg(i, j, t) x_i y_j`.
pub open spec fn cv2(x: spec_fn(int) -> int, y: spec_fn(int) -> int, t: int) -> int {
    sum(|i: int| cv2_row(x, y, t, i), N as nat)
}

/// `cv` as the symmetric double sum.
pub proof fn lemma_cv_double(x: spec_fn(int) -> int, y: spec_fn(int) -> int, t: int)
    requires
        0 <= t < N,
    ensures
        cv(x, y, t) == cv2(x, y, t),
{
    assert forall|i: int| 0 <= i < N implies #[trigger] cv_term(x, y, t, i) == cv2_row(x, y, t, i) by {
        lemma_xshift_as_sum(y, i, t);
        let g = |j: int| sg_term(y, i, t, j);
        lemma_sum_scale(g, x(i), N as nat);
        assert(cv_term(x, y, t, i) == x(i) * sum(g, N as nat));
        assert(sum(|k: int| x(i) * g(k), N as nat) == x(i) * sum(g, N as nat));
        assert forall|j: int| 0 <= j < N implies (x(i) * sg_term(y, i, t, j)) == #[trigger] cv2_term(
            x,
            y,
            t,
            i,
            j,
        ) by {
            lemma_mul_is_associative(x(i), sg(i, j, t), y(j));
            lemma_mul_is_commutative(x(i), sg(i, j, t));
            lemma_mul_is_associative(sg(i, j, t), x(i), y(j));
        }
        lemma_sum_ext(|k: int| x(i) * g(k), |j: int| cv2_term(x, y, t, i, j), N as nat);
    }
    lemma_sum_ext(|i: int| cv_term(x, y, t, i), |i: int| cv2_row(x, y, t, i), N as nat);
}

/// The negacyclic product over the integers is commutative.
pub proof fn cv_commutes(x: spec_fn(int) -> int, y: spec_fn(int) -> int, t: int)
    requires
        0 <= t < N,
    ensures
        cv(x, y, t) == cv(y, x, t),
{
    lemma_cv_double(x, y, t);
    lemma_cv_double(y, x, t);
    let f = |i: int, j: int| cv2_term(x, y, t, i, j);
    lemma_sum_swap(f, N as nat, N as nat);
    assert forall|j: int| 0 <= j < N implies sum(|i: int| f(i, j), N as nat) == #[trigger] cv2_row(
        y,
        x,
        t,
        j,
    ) by {
        assert forall|i: int| 0 <= i < N implies f(i, j) == #[trigger] cv2_term(y, x, t, j, i) by {
            assert(sg(i, j, t) == sg(j, i, t));
            lemma_mul_is_associative(sg(i, j, t), x(i), y(j));
            lemma_mul_is_associative(sg(i, j, t), y(j), x(i));
            lemma_mul_is_commutative(x(i), y(j));
        }
        lemma_sum_ext(|i: int| f(i, j), |i: int| cv2_term(y, x, t, j, i), N as nat);
    }
    lemma_sum_ext(|j: int| sum(|i: int| f(i, j), N as nat), |j: int| cv2_row(y, x, t, j), N as nat);
    assert forall|i: int| 0 <= i < N implies sum(|j: int| f(i, j), N as nat) == #[trigger] cv2_row(
        x,
        y,
        t,
        i,
    ) by {
        lemma_sum_ext(|j: int| f(i, j), |j: int| cv2_term(x, y, t, i, j), N as nat);
    }
    lemma_sum_ext(|i: int| sum(|j: int| f(i, j), N as nat), |i: int| cv2_row(x, y, t, i), N as nat);
}

/// The function `t -> cv(x, y, t)`.
pub open spec fn cvf(x: spec_fn(int) -> int, y: spec_fn(int) -> int) -> spec_fn(int) -> int {
    |t: int| cv(x, y, t)
}

/// Coefficient `t` of `X^i (X^j z)`.
pub open spec fn dd(z: spec_fn(int) -> int, i: int, j: int, t: int) -> int {
    xshift(|q: int| xshift(z, j, q), i, t)
}

/// Coefficient `t` of `X^i (y * z) = sum_j y_j X^i X^j z`.
pub open spec fn ee(y: spec_fn(int) -> int, z: spec_fn(int) -> int, i: int, t: int) -> int {
    sum(|j: int| y(j) * dd(z, i, j, t), N as nat)
}

/// Term `p` of `sum_p sg(i, j, p) (X^p z)_t`.
pub open spec fn ss_term(z: spec_fn(int) -> int, i: int, j: int, t: int, p: int) -> int {
    sg(i, j, p) * xshift(z, p, t)
}

/// `X^i X^j = X^(i + j)`: `sum_p sg(i, j, p) (X^p z)_t = (X^i (X^j z))_t`.
proof fn lemma_shift_shift(z: spec_fn(int) -> int, i: int, j: int, t: int)
    requires
        0 <= i < N,
        0 <= j < N,
        0 <= t < N,
    ensures
        sum(|p: int| ss_term(z, i, j, t, p), N as nat) == dd(z, i, j, t),
{
    let p0 = if i + j < N { i + j } else { i + j - N };
    let f = |p: int| ss_term(z, i, j, t, p);
    assert forall|p: int| 0 <= p < N && p != p0 implies #[trigger] f(p) == 0 by {}
    lemma_sum_single(f, N as nat, p0);
}

/// `(X^i (y * z))_t = sum_j y_j (X^i X^j z)_t`.
proof fn lemma_shift_of_product(y: spec_fn(int) -> int, z: spec_fn(int) -> int, i: int, t: int)
    requires
        0 <= i < N,
        0 <= t < N,
    ensures
        xshift(cvf(y, z), i, t) == ee(y, z, i, t),
{
    if t >= i {
        assert(xshift(cvf(y, z), i, t) == cv(y, z, t - i));
        assert forall|j: int| 0 <= j < N implies #[trigger] cv_term(y, z, t - i, j) == y(j) * dd(z, i, j, t) by {}
        lemma_sum_ext(|j: int| cv_term(y, z, t - i, j), |j: int| y(j) * dd(z, i, j, t), N as nat);
    } else {
        let t2 = t - i + N;
        assert(xshift(cvf(y, z), i, t) == -cv(y, z, t2));
        let g = |j: int| cv_term(y, z, t2, j);
        lemma_sum_scale(g, -1, N as nat);
        assert forall|j: int| 0 <= j < N implies -1 * g(j) == y(j) * #[trigger] dd(z, i, j, t) by {
            assert(dd(z, i, j, t) == -xshift(z, j, t2));
            assert(-1 * (y(j) * xshift(z, j, t2)) == y(j) * (-xshift(z, j, t2))) by (nonlinear_arith);
        }
        lemma_sum_ext(|k: int| -1 * g(k), |j: int| y(j) * dd(z, i, j, t), N as nat);
    }
}

/// Term `p` of `sum_p (X^i y)_p (X^p z)_t`.
pub open spec fn pp_term(y: spec_fn(int) -> int, z: spec_fn(int) -> int, i: int, t: int, p: int) -> int {
    xshift(y, i, p) * xshift(z, p, t)
}

/// `sum_p (X^i y)_p (X^p z)_t = sum_j y_j (X^i X^j z)_t`.
proof fn lemma_shifted_product(y: spec_fn(int) -> int, z: spec_fn(int) -> int, i: int, t: int)
    requires
        0 <= i < N,
        0 <= t < N,
    ensures
        sum(|p: int| pp_term(y, z, i, t, p), N as nat) == ee(y, z, i, t),
{
    let f = |j: int, p: int| sg(i, j, p) * y(j) * xshift(z, p, t);
    // sum_p (X^i y)_p (X^p z)_t = sum_p sum_j f(j, p)
    assert forall|p: int| 0 <= p < N implies #[trigger] pp_term(y, z, i, t, p) == sum(
        |j: int| f(j, p),
        N as nat,
    ) by {
        lemma_xshift_as_sum(y, i, p);
        let g = |j: int| sg_term(y, i, p, j);
        lemma_sum_scale(g, xshift(z, p, t), N as nat);
        assert forall|j: int| 0 <= j < N implies xshift(z, p, t) * g(j) == #[trigger] f(j, p) by {
            assert(xshift(z, p, t) * (sg(i, j, p) * y(j)) == sg(i, j, p) * y(j) * xshift(z, p, t))
                by (nonlinear_arith);
        }
        lemma_sum_ext(|k: int| xshift(z, p, t) * g(k), |j: int| f(j, p), N as nat);
        lemma_mul_is_commutative(xshift(y, i, p), xshift(z, p, t));
    }
    lemma_sum_ext(|p: int| pp_term(y, z, i, t, p), |p: int| sum(|j: int| f(j, p), N as nat), N as nat);
    lemma_sum_swap(f, N as nat, N as nat);
    // sum_j sum_p f(j, p) = sum_j y_j dd(z, i, j, t)
    assert forall|j: int| 0 <= j < N implies sum(|p: int| f(j, p), N as nat) == y(j) * #[trigger] dd(
        z,
        i,
        j,
        t,
    ) by {
        lemma_shift_shift(z, i, j, t);
        let h = |p: int| ss_term(z, i, j, t, p);
        lemma_sum_scale(h, y(j), N as nat);
        assert forall|p: int| 0 <= p < N implies #[trigger] f(j, p) == y(j) * h(p) by {
            assert(sg(i, j, p) * y(j) * xshift(z, p, t) == y(j) * (sg(i, j, p) * xshift(z, p, t)))
                by (nonlinear_arith);
        }
        lemma_sum_ext(|p: int| f(j, p), |k: int| y(j) * h(k), N as nat);
    }
    lemma_sum_ext(|j: int| sum(|p: int| f(j, p), N as nat), |j: int| y(j) * dd(z, i, j, t), N as nat);
}

/// Term `p` of `cv(x * y, z, t)` unfolded: `sum_i x_i (X^i y)_p (X^p z)_t`.
pub open spec fn xyz_term(x: spec_fn(int) -> int, y: spec_fn(int) -> int, z: spec_fn(int) -> int, t: int, p: int, i: int) -> int {
    x(i) * pp_term(y, z, i, t, p)
}

/// The negacyclic product over the integers is associative.
pub proof fn cv_associates(x: spec_fn(int) -> int, y: spec_fn(int) -> int, z: spec_fn(int) -> int, t: int)
    requires
        0 <= t < N,
    ensures
        cv(x, cvf(y, z), t) == cv(cvf(x, y), z, t),
{
    // Left side: sum_i x_i ee(y, z, i, t).
    assert forall|i: int| 0 <= i < N implies #[trigger] cv_term(x, cvf(y, z), t, i) == x(i) * ee(y, z, i, t) by {
        lemma_shift_of_product(y, z, i, t);
    }
    lemma_sum_ext(|i: int| cv_term(x, cvf(y, z), t, i), |i: int| x(i) * ee(y, z, i, t), N as nat);
    // Right side: sum_p cv(x, y, p) (X^p z)_t = sum_p sum_i x_i (X^i y)_p (X^p z)_t.
    let f = |p: int, i: int| xyz_term(x, y, z, t, p, i);
    assert forall|p: int| 0 <= p < N implies #[trigger] cv_term(cvf(x, y), z, t, p) == sum(
        |i: int| f(p, i),
        N as nat,
    ) by {
        let g = |i: int| cv_term(x, y, p, i);
        lemma_sum_scale(g, xshift(z, p, t), N as nat);
        assert forall|i: int| 0 <= i < N implies xshift(z, p, t) * g(i) == #[trigger] f(p, i) by {
            assert(xshift(z, p, t) * (x(i) * xshift(y, i, p)) == x(i) * (xshift(y, i, p) * xshift(z, p, t)))
                by (nonlinear_arith);
        }
        lemma_sum_ext(|k: int| xshift(z, p, t) * g(k), |i: int| f(p, i), N as nat);
        lemma_mul_is_commutative(cv(x, y, p), xshift(z, p, t));
    }
    lemma_sum_ext(|p: int| cv_term(cvf(x, y), z, t, p), |p: int| sum(|i: int| f(p, i), N as nat), N as nat);
    lemma_sum_swap(f, N as nat, N as nat);
    assert forall|i: int| 0 <= i < N implies sum(|p: int| f(p, i), N as nat) == x(i) * #[trigger] ee(y, z, i, t) by {
        lemma_shifted_product(y, z, i, t);
        let h = |p: int| pp_term(y, z, i, t, p);
        lemma_sum_scale(h, x(i), N as nat);
        lemma_sum_ext(|p: int| f(p, i), |k: int| x(i) * h(k), N as nat);
    }
    lemma_sum_ext(|i: int| sum(|p: int| f(p, i), N as nat), |i: int| x(i) * ee(y, z, i, t), N as nat);
}

/// `f` and `g` agree modulo `q` on the coefficients `0 .. N`.
pub open spec fn cong(f: spec_fn(int) -> int, g: spec_fn(int) -> int) -> bool {
    forall|t: int| 0 <= t < N ==> #[trigger] f(t) % (Q as int) == g(t) % (Q as int)
}

/// `cv` depends on its first argument only modulo `q`.
pub proof fn lemma_cv_cong_left(x: spec_fn(int) -> int, x2: spec_fn(int) -> int, y: spec_fn(int) -> int, t: int)
    requires
        cong(x, x2),
    ensures
        cv(x, y, t) % (Q as int) == cv(x2, y, t) % (Q as int),
{
    assert forall|i: int| 0 <= i < N implies #[trigger] cv_term(x, y, t, i) % (Q as int) == cv_term(
        x2,
        y,
        t,
        i,
    ) % (Q as int) by {
        assert(x(i) % (Q as int) == x2(i) % (Q as int));
        lemma_mul_mod_noop_left(x(i), xshift(y, i, t), Q as int);
        lemma_mul_mod_noop_left(x2(i), xshift(y, i, t), Q as int);
    }
    lemma_sum_mod(|i: int| cv_term(x, y, t, i), |i: int| cv_term(x2, y, t, i), N as nat, Q as int);
}

/// `cv` depends on its second argument only modulo `q`.
pub proof fn lemma_cv_cong_right(x: spec_fn(int) -> int, y: spec_fn(int) -> int, y2: spec_fn(int) -> int, t: int)
    requires
        0 <= t < N,
        cong(y, y2),
    ensures
        cv(x, y, t) % (Q as int) == cv(x, y2, t) % (Q as int),
{
    cv_commutes(x, y, t);
    cv_commutes(x, y2, t);
    lemma_cv_cong_left(y, y2, x, t);
}

/// The pointwise sum of two coefficient functions.
pub open spec fn fadd(f: spec_fn(int) -> int, g: spec_fn(int) -> int) -> spec_fn(int) -> int {
    |i: int| f(i) + g(i)
}

/// The pointwise negation of a coefficient function.
pub open spec fn fneg(f: spec_fn(int) -> int) -> spec_fn(int) -> int {
    |i: int| -f(i)
}

/// `cv` is additive in its first argument.
pub proof fn lemma_cv_add_left(x1: spec_fn(int) -> int, x2: spec_fn(int) -> int, y: spec_fn(int) -> int, t: int)
    ensures
        cv(fadd(x1, x2), y, t) == cv(x1, y, t) + cv(x2, y, t),
{
    let s = fadd(x1, x2);
    let f1 = |i: int| cv_term(x1, y, t, i);
    let f2 = |i: int| cv_term(x2, y, t, i);
    assert forall|i: int| 0 <= i < N implies #[trigger] cv_term(s, y, t, i) == f1(i) + f2(i) by {
        lemma_mul_is_distributive_add_other_way(xshift(y, i, t), x1(i), x2(i));
    }
    lemma_sum_ext(|i: int| cv_term(s, y, t, i), |k: int| f1(k) + f2(k), N as nat);
    lemma_sum_add(f1, f2, N as nat);
}

/// `cv` is odd in its first argument.
pub proof fn lemma_cv_neg_left(x: spec_fn(int) -> int, y: spec_fn(int) -> int, t: int)
    ensures
        cv(fneg(x), y, t) == -cv(x, y, t),
{
    let g = |i: int| cv_term(x, y, t, i);
    lemma_sum_scale(g, -1, N as nat);
    assert forall|i: int| 0 <= i < N implies #[trigger] cv_term(fneg(x), y, t, i) == -1 * g(i) by {
        assert((-x(i)) * xshift(y, i, t) == -1 * (x(i) * xshift(y, i, t))) by (nonlinear_arith);
    }
    lemma_sum_ext(|i: int| cv_term(fneg(x), y, t, i), |k: int| -1 * g(k), N as nat);
}

/// A constant polynomial `k` multiplies every coefficient by `k` modulo `q`.
pub proof fn lemma_cv_const_left(k: int, y: spec_fn(int) -> int, t: int)
    requires
        0 <= t < N,
    ensures
        cv(sf(pconst(k)), y, t) % (Q as int) == (k * y(t)) % (Q as int),
{
    let f = |i: int| cv_term(sf(pconst(k)), y, t, i);
    assert forall|i: int| 0 <= i < N && i != 0 implies #[trigger] f(i) == 0 by {}
    lemma_sum_single(f, N as nat, 0);
    assert(f(0) == (k % (Q as int)) * y(t));
    lemma_mul_mod_noop_left(k, y(t), Q as int);
}

/// Coefficient `t` of `Poly::mul` is `cv` of the coefficients, reduced modulo `q`.
pub proof fn lemma_pmul_is_cv(a: Seq<i64>, b: Seq<i64>, t: int)
    requires
        0 <= t < N,
    ensures
        pmul(a, b)[t] as int == cv(sf(a), sf(b), t) % (Q as int),
{
    lemma_nc_coef_is_cv(a, b, t);
}

/// Term `k` of `cv(x, sum_i F_i, t)` split by `i`.
pub open spec fn fam_term(x: spec_fn(int) -> int, fam: spec_fn(int, int) -> int, t: int, k: int, i: int) -> int {
    x(k) * xshift(|u: int| fam(i, u), k, t)
}

/// The function `u -> sum_{i < n} F(i, u)`.
pub open spec fn fam_sum(fam: spec_fn(int, int) -> int, n: nat) -> spec_fn(int) -> int {
    |u: int| sum(|i: int| fam(i, u), n)
}

/// The function `u -> F(i, u)`.
pub open spec fn fam_at(fam: spec_fn(int, int) -> int, i: int) -> spec_fn(int) -> int {
    |u: int| fam(i, u)
}

/// `cv` is additive in its second argument, over a finite sum.
pub proof fn lemma_cv_sum_right(x: spec_fn(int) -> int, fam: spec_fn(int, int) -> int, n: nat, t: int)
    requires
        0 <= t < N,
    ensures
        cv(x, fam_sum(fam, n), t) == sum(|i: int| cv(x, fam_at(fam, i), t), n),
{
    let f = |k: int, i: int| fam_term(x, fam, t, k, i);
    assert forall|k: int| 0 <= k < N implies #[trigger] cv_term(x, fam_sum(fam, n), t, k) == sum(
        |i: int| f(k, i),
        n,
    ) by {
        let g = |i: int| xshift(fam_at(fam, i), k, t);
        if t >= k {
            let h = |i: int| fam(i, t - k);
            assert(xshift(fam_sum(fam, n), k, t) == sum(h, n));
            lemma_sum_ext(h, g, n);
        } else {
            let t2 = t - k + N;
            let h = |i: int| fam(i, t2);
            assert(xshift(fam_sum(fam, n), k, t) == -sum(h, n));
            lemma_sum_scale(h, -1, n);
            lemma_sum_ext(|j: int| -1 * h(j), g, n);
        }
        assert(xshift(fam_sum(fam, n), k, t) == sum(g, n));
        lemma_sum_scale(g, x(k), n);
        lemma_sum_ext(|j: int| x(k) * g(j), |i: int| f(k, i), n);
    }
    lemma_sum_ext(|k: int| cv_term(x, fam_sum(fam, n), t, k), |k: int| sum(|i: int| f(k, i), n), N as nat);
    lemma_sum_swap(f, N as nat, n);
    assert forall|i: int| 0 <= i < n implies sum(|k: int| f(k, i), N as nat) == #[trigger] cv(
        x,
        fam_at(fam, i),
        t,
    ) by {
        lemma_sum_ext(|k: int| f(k, i), |k: int| cv_term(x, fam_at(fam, i), t, k), N as nat);
    }
    lemma_sum_ext(|i: int| sum(|k: int| f(k, i), N as nat), |i: int| cv(x, fam_at(fam, i), t), n);
}

/// A coefficient function scaled by `c`.
pub open spec fn fscale(c: int, f: spec_fn(int) -> int) -> spec_fn(int) -> int {
    |i: int| c * f(i)
}

/// A scalar factor of the first argument comes out of `cv`.
pub proof fn lemma_cv_scale_left(c: int, x: spec_fn(int) -> int, y: spec_fn(int) -> int, t: int)
    ensures
        cv(fscale(c, x), y, t) == c * cv(x, y, t),
{
    let g = |i: int| cv_term(x, y, t, i);
    lemma_sum_scale(g, c, N as nat);
    assert forall|i: int| 0 <= i < N implies #[trigger] cv_term(fscale(c, x), y, t, i) == c * g(i) by {
        lemma_mul_is_associative(c, x(i), xshift(y, i, t));
    }
    lemma_sum_ext(|i: int| cv_term(fscale(c, x), y, t, i), |k: int| c * g(k), N as nat);
}

/// A scalar factor of the second argument comes out of `cv`.
pub proof fn lemma_cv_scale_right(c: int, x: spec_fn(int) -> int, y: spec_fn(int) -> int, t: int)
    requires
        0 <= t < N,
    ensures
        cv(x, fscale(c, y), t) == c * cv(x, y, t),
{
    cv_commutes(x, fscale(c, y), t);
    cv_commutes(x, y, t);
    lemma_cv_scale_left(c, y, x, t);
}

/// `Poly::mul` is commutative: `a * b = b * a` in `Z_q[X]/(X^N + 1)`.
pub proof fn pmul_commutes(a: Seq<i64>, b: Seq<i64>)
    ensures
        pmul(a, b) == pmul(b, a),
{
    assert forall|t: int| 0 <= t < N implies #[trigger] pmul(a, b)[t] == pmul(b, a)[t] by {
        lemma_nc_coef_is_cv(a, b, t);
        lemma_nc_coef_is_cv(b, a, t);
        cv_commutes(sf(a), sf(b), t);
    }
    assert(pmul(a, b) =~= pmul(b, a));
}

/// `Poly::mul` is associative: `(a * b) * c = a * (b * c)` in `Z_q[X]/(X^N + 1)`.
pub proof fn pmul_associates(a: Seq<i64>, b: Seq<i64>, c: Seq<i64>)
    ensures
        pmul(pmul(a, b), c) == pmul(a, pmul(b, c)),
{
    let q = Q as int;
    assert(cong(sf(pmul(a, b)), cvf(sf(a), sf(b)))) by {
        assert forall|u: int| 0 <= u < N implies #[trigger] sf(pmul(a, b))(u) % q == cvf(sf(a), sf(b))(u) % q by {
            lemma_pmul_is_cv(a, b, u);
            lemma_mod_twice(cv(sf(a), sf(b), u), q);
        }
    }
    assert(cong(sf(pmul(b, c)), cvf(sf(b), sf(c)))) by {
        assert forall|u: int| 0 <= u < N implies #[trigger] sf(pmul(b, c))(u) % q == cvf(sf(b), sf(c))(u) % q by {
            lemma_pmul_is_cv(b, c, u);
            lemma_mod_twice(cv(sf(b), sf(c), u), q);
        }
    }
    assert forall|t: int| 0 <= t < N implies #[trigger] pmul(pmul(a, b), c)[t] == pmul(a, pmul(b, c))[t] by {
        lemma_pmul_is_cv(pmul(a, b), c, t);
        lemma_pmul_is_cv(a, pmul(b, c), t);
        lemma_cv_cong_left(sf(pmul(a, b)), cvf(sf(a), sf(b)), sf(c), t);
        lemma_cv_cong_right(sf(a), sf(pmul(b, c)), cvf(sf(b), sf(c)), t);
        cv_associates(sf(a), sf(b), sf(c), t);
    }
    assert(pmul(pmul(a, b), c) =~= pmul(a, pmul(b, c)));
}

/// `Poly::mul` distributes over `Poly::add`: `a * (b + c) = a * b + a * c` in
/// `Z_q[X]/(X^N + 1)`.
pub proof fn pmul_distributes(a: Seq<i64>, b: Seq<i64>, c: Seq<i64>)
    ensures
        pmul(a, padd(b, c)) == padd(pmul(a, b), pmul(a, c)),
{
    let q = Q as int;
    assert(cong(sf(padd(b, c)), fadd(sf(b), sf(c)))) by {
        assert forall|u: int| 0 <= u < N implies #[trigger] sf(padd(b, c))(u) % q == fadd(sf(b), sf(c))(u) % q by {
            lemma_mod_twice(b[u] + c[u], q);
        }
    }
    assert forall|t: int| 0 <= t < N implies #[trigger] pmul(a, padd(b, c))[t] == padd(pmul(a, b), pmul(a, c))[t] by {
        lemma_pmul_is_cv(a, padd(b, c), t);
        lemma_pmul_is_cv(a, b, t);
        lemma_pmul_is_cv(a, c, t);
        lemma_cv_cong_right(sf(a), sf(padd(b, c)), fadd(sf(b), sf(c)), t);
        cv_commutes(sf(a), fadd(sf(b), sf(c)), t);
        cv_commutes(sf(a), sf(b), t);
        cv_commutes(sf(a), sf(c), t);
        lemma_cv_add_left(sf(b), sf(c), sf(a), t);
        lemma_add_mod_noop(cv(sf(a), sf(b), t), cv(sf(a), sf(c), t), q);
    }
    assert(pmul(a, padd(b, c)) =~= padd(pmul(a, b), pmul(a, c)));
}

/// The constant `1` is a unit and `0` annihilates: `a * 1 = a mod q` and
/// `a * 0 = 0`.
pub proof fn pmul_one_zero(a: Seq<i64>)
    ensures
        forall|t: int| 0 <= t < N ==> #[trigger] pmul(a, pconst(1))[t] as int == (a[t] as int) % (Q as int),
        pmul(a, pzero()) == pzero(),
{
    let q = Q as int;
    assert(pconst(0) =~= pzero());
    assert forall|t: int| 0 <= t < N implies #[trigger] pmul(a, pconst(1))[t] as int == (a[t] as int) % q by {
        lemma_pmul_is_cv(a, pconst(1), t);
        cv_commutes(sf(a), sf(pconst(1)), t);
        lemma_cv_const_left(1, sf(a), t);
    }
    assert forall|t: int| 0 <= t < N implies #[trigger] pmul(a, pzero())[t] == pzero()[t] by {
        lemma_pmul_is_cv(a, pconst(0), t);
        cv_commutes(sf(a), sf(pconst(0)), t);
        lemma_cv_const_left(0, sf(a), t);
    }
    assert(pmul(a, pzero()) =~= pzero());
}

} // verus!
