//! Why decoding inverts encoding for the CRT slots: the odd powers of `OMEGA`
//! are orthogonal modulo `T`, and `N^-1 N = 1` modulo `T`.
use vstd::prelude::*;
use vstd::arithmetic::power::*;
use vstd::arithmetic::power2::*;
use vstd::arithmetic::div_mod::*;
use vstd::arithmetic::mul::*;
use crate::arith::{sum, lemma_sum_ext, lemma_sum_mod, lemma_sum_scale, lemma_sum_swap, lemma_sum_single, lemma_sum_add};
use crate::params::rgsw::{N, T, OMEGA};
use super::crt::{pow_mod_spec, trunc_rem, root, enc_term, enc_acc, n_inv, enc_coef, dec_val};
use super::poly::nc_coef;
use super::fermat::{is_prime, pow_mod_inverts_prime};
use super::ring::{sg, sf, cv2, cv2_row, cv2_term, lemma_cv_double, lemma_nc_coef_is_cv};

verus! {

/// `b^e mod m` known as `r` gives `b^(2e) mod m = r^2 mod m`.
proof fn lemma_square_mod(b: int, e: nat, m: int, r: int)
    requires
        m > 0,
        pow(b, e) % m == r,
    ensures
        pow(b, 2 * e) % m == (r * r) % m,
{
    lemma_pow_adds(b, e, e);
    assert(e + e == 2 * e);
    lemma_mul_mod_noop(pow(b, e), pow(b, e), m);
}

/// `OMEGA^32 = 1` and `OMEGA^2 = 8` modulo `T`.
proof fn lemma_omega_facts()
    ensures
        pow(OMEGA as int, 2) % (T as int) == 8,
        pow(OMEGA as int, 32) % (T as int) == 1,
{
    lemma_square_is_pow2(28);
    lemma_square_mod(28, 2, 97, 8);
    lemma_square_mod(28, 4, 97, 64);
    lemma_square_mod(28, 8, 97, 22);
    lemma_square_mod(28, 16, 97, 96);
}

/// Powers of `OMEGA` modulo `T` repeat with period 32.
#[verifier::spinoff_prover]
proof fn lemma_omega_period(e: nat)
    ensures
        pow(OMEGA as int, e) % (T as int) == pow(OMEGA as int, e % 32) % (T as int),
{
    let w = OMEGA as int;
    let t = T as int;
    lemma_omega_facts();
    let qq = e / 32;
    let r = e % 32;
    assert(e == 32 * qq + r);
    lemma_pow_adds(w, 32 * qq, r);
    assert(pow(w, e) == pow(w, 32 * qq) * pow(w, r));
    lemma_pow_multiplies(w, 32, qq);
    assert(pow(w, 32 * qq) == pow(pow(w, 32), qq));
    lemma_pow_mod_noop(pow(w, 32), qq, t);
    lemma1_pow(qq);
    assert(pow(w, 32 * qq) % t == pow(1, qq) % t);
    assert(pow(w, 32 * qq) % t == 1);
    lemma_mul_mod_noop(pow(w, 32 * qq), pow(w, r), t);
    assert(pow(w, e) % t == (1 * (pow(w, r) % t)) % t);
    lemma_mod_twice(pow(w, r), t);
}

/// `OMEGA^e mod T`, with the exponent taken modulo 32.
pub open spec fn wpow(e: int) -> int {
    pow(OMEGA as int, (e % 32) as nat) % (T as int)
}

/// `pow_mod_spec(OMEGA^a mod T, j, T) = OMEGA^(a j) mod T`.
proof fn lemma_pow_of_omega_power(a: nat, j: nat)
    requires
        j >= 1,
    ensures
        pow_mod_spec(pow(OMEGA as int, a) % (T as int), j as int, T as int) == pow(OMEGA as int, a * j) % (T as int),
{
    let w = OMEGA as int;
    let t = T as int;
    let x = pow(w, a) % t;
    lemma_mod_twice(pow(w, a), t);
    assert(x % t == x);
    lemma_pow_mod_noop(pow(w, a), j, t);
    lemma_pow_multiplies(w, a, j);
}

/// Term `j` of the orthogonality sum: `root_k^-j root_i^j = OMEGA^(2 j (i - k))`
/// modulo `T`.
proof fn lemma_orth_term(i: int, k: int, j: int)
    requires
        0 <= i < N,
        0 <= k < N,
        0 <= j < N,
    ensures
        (enc_term(k, j) * pow_mod_spec(root(i), j, T as int)) % (T as int) == wpow(2 * j * (i - k)),
{
    let w = OMEGA as int;
    let t = T as int;
    if j == 0 {
        lemma_pow0(w);
        assert(enc_term(k, j) == 1);
        assert(pow_mod_spec(root(i), j, t) == 1);
        assert((2 * j * (i - k)) % 32 == 0);
    } else {
        let ak = (2 * k + 1) as nat;
        let ai = (2 * i + 1) as nat;
        assert(root(k) == pow(w, ak) % t);
        assert(root(i) == pow(w, ai) % t);
        // root_k^(T - 2) = OMEGA^(95 (2k + 1))
        lemma_pow_of_omega_power(ak, 95);
        let ainv = ak * 95;
        let inv = pow(w, ainv) % t;
        assert(pow_mod_spec(root(k), T - 2, t) == inv);
        lemma_pow_of_omega_power(ainv, j as nat);
        lemma_pow_of_omega_power(ai, j as nat);
        let e1 = ainv * (j as nat);
        let e2 = ai * (j as nat);
        assert(enc_term(k, j) == pow(w, e1) % t);
        assert(pow_mod_spec(root(i), j, t) == pow(w, e2) % t);
        lemma_mul_mod_noop(pow(w, e1), pow(w, e2), t);
        lemma_pow_adds(w, e1, e2);
        lemma_omega_period(e1 + e2);
        assert(e1 + e2 == 2 * j * (i - k) + 32 * (j * (6 * k + 3))) by (nonlinear_arith)
            requires
                e1 == (2 * k + 1) * 95 * j,
                e2 == (2 * i + 1) * j,
        ;
        assert(j * (6 * k + 3) >= 0) by (nonlinear_arith)
            requires
                j >= 1,
                k >= 0,
        ;
        lemma_mod_multiples_vanish(j * (6 * k + 3), 2 * j * (i - k), 32);
    }
}

/// `OMEGA^(2m) mod T` for `0 <= m < 16`.
#[verifier::opaque]
pub open spec fn tab(m: int) -> int {
    if m == 0 {
        1
    } else if m == 1 {
        8
    } else if m == 2 {
        64
    } else if m == 3 {
        27
    } else if m == 4 {
        22
    } else if m == 5 {
        79
    } else if m == 6 {
        50
    } else if m == 7 {
        12
    } else if m == 8 {
        96
    } else if m == 9 {
        89
    } else if m == 10 {
        33
    } else if m == 11 {
        70
    } else if m == 12 {
        75
    } else if m == 13 {
        18
    } else if m == 14 {
        47
    } else {
        85
    }
}

/// The table of the even powers of `OMEGA` modulo `T`.
proof fn lemma_tab(m: int)
    requires
        0 <= m < 16,
    ensures
        pow(OMEGA as int, (2 * m) as nat) % (T as int) == tab(m),
    decreases m,
{
    let w = OMEGA as int;
    reveal(tab);
    if m == 0 {
        lemma_pow0(w);
    } else {
        lemma_tab(m - 1);
        lemma_omega_facts();
        lemma_pow_adds(w, (2 * (m - 1)) as nat, 2);
        assert((2 * (m - 1)) as nat + 2 == (2 * m) as nat);
        lemma_mul_mod_noop(pow(w, (2 * (m - 1)) as nat), pow(w, 2), T as int);
    }
}

/// A sum of sixteen terms written out.
proof fn lemma_sum16(f: spec_fn(int) -> int)
    ensures
        sum(f, 16) == f(0) + f(1) + f(2) + f(3) + f(4) + f(5) + f(6) + f(7) + f(8) + f(9) + f(10) + f(11)
            + f(12) + f(13) + f(14) + f(15),
{
    reveal_with_fuel(sum, 17);
}

/// `sum_j OMEGA^(2 j d)` over `j < 16`, term by term from the table.
pub open spec fn geo(d: int) -> int {
    tab(0) + tab(d % 16) + tab((2 * d) % 16) + tab((3 * d) % 16) + tab((4 * d) % 16) + tab((5 * d) % 16) + tab(
        (6 * d) % 16,
    ) + tab((7 * d) % 16) + tab((8 * d) % 16) + tab((9 * d) % 16) + tab((10 * d) % 16) + tab((11 * d) % 16)
        + tab((12 * d) % 16) + tab((13 * d) % 16) + tab((14 * d) % 16) + tab((15 * d) % 16)
}

/// For `d` not a multiple of 16, the sixteen powers `OMEGA^(2 j d)` sum to `0`
/// modulo `T`.
#[verifier::spinoff_prover]
proof fn lemma_geo_vanishes(d: int)
    requires
        1 <= d < 16,
    ensures
        geo(d) % (T as int) == 0,
{
    assert(geo(d) % 97 == 0) by {
        reveal(tab);
        if d == 1 { assert(geo(1) % 97 == 0); }
        else if d == 2 { assert(geo(2) % 97 == 0); }
        else if d == 3 { assert(geo(3) % 97 == 0); }
        else if d == 4 { assert(geo(4) % 97 == 0); }
        else if d == 5 { assert(geo(5) % 97 == 0); }
        else if d == 6 { assert(geo(6) % 97 == 0); }
        else if d == 7 { assert(geo(7) % 97 == 0); }
        else if d == 8 { assert(geo(8) % 97 == 0); }
        else if d == 9 { assert(geo(9) % 97 == 0); }
        else if d == 10 { assert(geo(10) % 97 == 0); }
        else if d == 11 { assert(geo(11) % 97 == 0); }
        else if d == 12 { assert(geo(12) % 97 == 0); }
        else if d == 13 { assert(geo(13) % 97 == 0); }
        else if d == 14 { assert(geo(14) % 97 == 0); }
        else { assert(geo(15) % 97 == 0); }
    }
}

/// `OMEGA^(2x) mod T` is the table entry at `x mod 16`.
proof fn lemma_wpow_tab(x: int)
    ensures
        wpow(2 * x) == tab(x % 16),
{
    lemma_fundamental_div_mod(x, 16);
    let r = x % 16;
    let qq = x / 16;
    assert(2 * x == 32 * qq + 2 * r);
    lemma_mod_multiples_vanish(qq, 2 * r, 32);
    lemma_small_mod((2 * r) as nat, 32);
    lemma_tab(r);
}

/// Term `j` of the orthogonality sum.
pub open spec fn orth_term(i: int, k: int, j: int) -> int {
    enc_term(k, j) * pow_mod_spec(root(i), j, T as int)
}

/// The orthogonality sum reduces to `sum_j OMEGA^(2 j (i - k))` modulo `T`.
proof fn lemma_orth_reduce(i: int, k: int)
    requires
        0 <= i < N,
        0 <= k < N,
    ensures
        orth_sum(i, k) % (T as int) == sum(|j: int| wpow(2 * j * (i - k)), N as nat)
            % (T as int),
{
    let t = T as int;
    let f = |j: int| orth_term(i, k, j);
    let g = |j: int| wpow(2 * j * (i - k));
    assert forall|j: int| 0 <= j < N implies #[trigger] f(j) % t == g(j) % t by {
        lemma_orth_term(i, k, j);
        lemma_mod_twice(pow(OMEGA as int, ((2 * j * (i - k)) % 32) as nat), t);
    }
    lemma_sum_mod(f, g, N as nat, t);
}

/// Off the diagonal, term `j` is the table entry at `j d mod 16` for
/// `d = (i - k) mod 16`.
proof fn lemma_off_term(i: int, k: int, j: int)
    ensures
        wpow(2 * j * (i - k)) == tab((j * ((i - k) % 16)) % 16),
{
    let dm = (i - k) % 16;
    assert(2 * j * (i - k) == 2 * (j * (i - k))) by (nonlinear_arith);
    lemma_wpow_tab(j * (i - k));
    lemma_mul_mod_noop_right(j, i - k, 16);
    lemma_mul_mod_noop_right(j, dm, 16);
    lemma_mod_twice(i - k, 16);
}

/// On the diagonal every term is `1`.
#[verifier::spinoff_prover]
proof fn lemma_orth_diag(i: int)
    ensures
        sum(|j: int| wpow(2 * j * (i - i)), N as nat) == N,
{
    let g = |j: int| wpow(2 * j * (i - i));
    lemma_sum16(g);
    lemma_pow0(OMEGA as int);
    assert forall|j: int| 0 <= j < N implies #[trigger] g(j) == 1 by {
        assert(2 * j * (i - i) == 0) by (nonlinear_arith);
    }
    assert(g(0) + g(1) + g(2) + g(3) + g(4) + g(5) + g(6) + g(7) + g(8) + g(9) + g(10) + g(11) + g(12) + g(13) + g(14)
        + g(15) == 16);
}

/// Off the diagonal the terms are a full set of sixteenth roots of unity, which
/// sum to `0` modulo `T`.
#[verifier::spinoff_prover]
proof fn lemma_orth_off(i: int, k: int)
    requires
        0 <= i < N,
        0 <= k < N,
        i != k,
    ensures
        sum(|j: int| wpow(2 * j * (i - k)), N as nat) % (T as int) == 0,
{
    let g = |j: int| wpow(2 * j * (i - k));
    lemma_sum16(g);
    let dm = (i - k) % 16;
    assert(1 <= dm < 16);
    lemma_off_term(i, k, 0);
    lemma_off_term(i, k, 1);
    lemma_off_term(i, k, 2);
    lemma_off_term(i, k, 3);
    lemma_off_term(i, k, 4);
    lemma_off_term(i, k, 5);
    lemma_off_term(i, k, 6);
    lemma_off_term(i, k, 7);
    lemma_off_term(i, k, 8);
    lemma_off_term(i, k, 9);
    lemma_off_term(i, k, 10);
    lemma_off_term(i, k, 11);
    lemma_off_term(i, k, 12);
    lemma_off_term(i, k, 13);
    lemma_off_term(i, k, 14);
    lemma_off_term(i, k, 15);
    lemma_small_mod(0, 16);
    lemma_mod_twice(dm, 16);
    assert(g(0) == tab(0));
    assert(g(1) == tab(dm % 16));
    assert(g(0) + g(1) + g(2) + g(3) + g(4) + g(5) + g(6) + g(7) + g(8) + g(9) + g(10) + g(11) + g(12) + g(13) + g(14)
        + g(15) == geo(dm));
    lemma_geo_vanishes(dm);
}

/// `sum_j root_k^-j root_i^j`.
pub open spec fn orth_sum(i: int, k: int) -> int {
    sum(|j: int| orth_term(i, k, j), N as nat)
}

/// The evaluation points are orthogonal: `sum_j root_k^-j root_i^j` is `N` when
/// `i = k` and `0` otherwise, modulo `T`.
pub proof fn lemma_orthogonal(i: int, k: int)
    requires
        0 <= i < N,
        0 <= k < N,
    ensures
        orth_sum(i, k) % (T as int) == if i == k { N as int } else { 0 },
{
    lemma_orth_reduce(i, k);
    if i == k {
        lemma_orth_diag(i);
    } else {
        lemma_orth_off(i, k);
    }
}

/// `N^-1 N = 1` modulo `T`.
#[verifier::spinoff_prover]
proof fn lemma_n_inv()
    ensures
        (n_inv() * (N as int)) % (T as int) == 1,
{
    let t = T as int;
    lemma_square_is_pow2(16);
    lemma_square_mod(16, 2, 97, 62);
    lemma_square_mod(16, 4, 97, 61);
    lemma_square_mod(16, 8, 97, 35);
    lemma_square_mod(16, 16, 97, 61);
    lemma_square_mod(16, 32, 97, 35);
    lemma_pow_adds(16, 64, 32);
    lemma_mul_mod_noop(pow(16, 64), pow(16, 32), t);
    assert(pow(16, 96) % t == 1);
    lemma_pow_adds(16, 95, 1);
    lemma_pow1(16);
    assert(n_inv() == pow(16, 95) % t);
    lemma_mul_mod_noop_left(pow(16, 95), 16, t);
}

/// Rust's `%` and the Euclidean remainder agree modulo the divisor.
proof fn lemma_trunc_rem_cong(x: int, d: int)
    requires
        d > 0,
    ensures
        trunc_rem(x, d) % d == x % d,
{
    if x >= 0 {
        lemma_mod_twice(x, d);
    } else {
        lemma_sub_mod_noop(0, -x, d);
        lemma_sub_mod_noop(0, (-x) % d, d);
        lemma_mod_twice(-x, d);
    }
}

/// `sum_{k < n} slots_k root_k^-j`.
pub open spec fn enc_sum(slots: Seq<i64>, j: int, n: nat) -> int {
    sum(|k: int| slots[k] * enc_term(k, j), n)
}

/// The running sum of the encoding is `sum_k slots_k root_k^-j` modulo `T`.
proof fn lemma_enc_acc(slots: Seq<i64>, j: int, n: nat)
    ensures
        enc_acc(slots, j, n) % (T as int) == enc_sum(slots, j, n) % (T as int),
    decreases n,
{
    let t = T as int;
    if n > 0 {
        let n1 = (n - 1) as nat;
        lemma_enc_acc(slots, j, n1);
        let x = enc_acc(slots, j, n1) + slots[n1 as int] * enc_term(n1 as int, j);
        lemma_trunc_rem_cong(x, t);
        lemma_add_mod_noop(enc_acc(slots, j, n1), slots[n1 as int] * enc_term(n1 as int, j), t);
        lemma_add_mod_noop(enc_sum(slots, j, n1), slots[n1 as int] * enc_term(n1 as int, j), t);
    }
}

/// Coefficient `j` of the encoding is `N^-1 sum_k slots_k root_k^-j` modulo `T`.
proof fn lemma_enc_coef(slots: Seq<i64>, j: int)
    ensures
        enc_coef(slots, j) % (T as int) == (n_inv() * enc_sum(slots, j, N as nat)) % (T as int),
{
    let t = T as int;
    let acc = enc_acc(slots, j, N as nat);
    let c = trunc_rem(acc * n_inv(), t);
    lemma_trunc_rem_cong(acc * n_inv(), t);
    lemma_enc_acc(slots, j, N as nat);
    lemma_mul_mod_noop_left(acc, n_inv(), t);
    lemma_mul_mod_noop_left(enc_sum(slots, j, N as nat), n_inv(), t);
    lemma_mul_is_commutative(acc, n_inv());
    lemma_mul_is_commutative(enc_sum(slots, j, N as nat), n_inv());
    if c > T / 2 {
        lemma_mod_sub_multiples_vanish(c, t);
    }
}

/// The coefficients that `encode_slots` computes.
pub open spec fn enc_coefs(slots: Seq<i64>) -> Seq<i64> {
    Seq::new(N as nat, |j: int| enc_coef(slots, j) as i64)
}

/// The encoded coefficients lie in `(-T, T)`.
proof fn lemma_enc_coef_range(slots: Seq<i64>, j: int)
    ensures
        -(T as int) < enc_coef(slots, j) < T,
{
}

/// `sum_j (N^-1 S_j) root_i^j = N^-1 sum_k slots_k (sum_j root_k^-j root_i^j)`.
#[verifier::spinoff_prover]
proof fn lemma_regroup(slots: Seq<i64>, i: int)
    ensures
        sum(|j: int| (n_inv() * enc_sum(slots, j, N as nat)) * pow_mod_spec(root(i), j, T as int), N as nat)
            == n_inv() * sum(|k: int| slots[k] * orth_sum(i, k), N as nat),
{
    let ni = n_inv();
    let p = |j: int| pow_mod_spec(root(i), j, T as int);
    let h = |j: int| enc_sum(slots, j, N as nat) * p(j);
    assert forall|j: int| 0 <= j < N implies #[trigger] ((ni * enc_sum(slots, j, N as nat)) * p(j)) == ni * h(j) by {
        lemma_mul_is_associative(ni, enc_sum(slots, j, N as nat), p(j));
    }
    lemma_sum_ext(
        |j: int| (ni * enc_sum(slots, j, N as nat)) * pow_mod_spec(root(i), j, T as int),
        |j: int| ni * h(j),
        N as nat,
    );
    lemma_sum_scale(h, ni, N as nat);
    let f = |j: int, k: int| slots[k] * orth_term(i, k, j);
    assert forall|j: int| 0 <= j < N implies #[trigger] h(j) == sum(|k: int| f(j, k), N as nat) by {
        let g = |k: int| slots[k] * enc_term(k, j);
        lemma_sum_scale(g, p(j), N as nat);
        assert forall|k: int| 0 <= k < N implies p(j) * g(k) == #[trigger] f(j, k) by {
            assert(p(j) * (slots[k] * enc_term(k, j)) == slots[k] * (enc_term(k, j) * p(j))) by (nonlinear_arith);
        }
        lemma_sum_ext(|kk: int| p(j) * g(kk), |k: int| f(j, k), N as nat);
        lemma_mul_is_commutative(enc_sum(slots, j, N as nat), p(j));
    }
    lemma_sum_ext(h, |j: int| sum(|k: int| f(j, k), N as nat), N as nat);
    lemma_sum_swap(f, N as nat, N as nat);
    assert forall|k: int| 0 <= k < N implies sum(|j: int| f(j, k), N as nat) == slots[k] * #[trigger] orth_sum(i, k) by {
        lemma_sum_scale(|j: int| orth_term(i, k, j), slots[k] as int, N as nat);
        lemma_sum_ext(|j: int| f(j, k), |jj: int| slots[k] * (|j: int| orth_term(i, k, j))(jj), N as nat);
    }
    lemma_sum_ext(
        |k: int| sum(|j: int| f(j, k), N as nat),
        |k: int| slots[k] * orth_sum(i, k),
        N as nat,
    );
}

/// Decoding inverts encoding: slot `i` of the decoding of `encode_slots(slots)`
/// is `slots[i] mod T`, so `decode_slots` gives back every slot in `(-T/2, T/2]`.
pub proof fn slots_decode_inverts_encode(slots: Seq<i64>)
    ensures
        forall|i: int| 0 <= i < N ==> #[trigger] dec_val(enc_coefs(slots), i) == (slots[i] as int) % (T as int),
{
    let t = T as int;
    let c = enc_coefs(slots);
    let ni = n_inv();
    assert forall|i: int| 0 <= i < N implies #[trigger] dec_val(enc_coefs(slots), i) == (slots[i] as int) % t by {
        let p = |j: int| pow_mod_spec(root(i), j, t);
        let f = |j: int| ((c[j] as int) % t) * p(j);
        let g = |j: int| (ni * enc_sum(slots, j, N as nat)) * p(j);
        assert forall|j: int| 0 <= j < N implies #[trigger] f(j) % t == g(j) % t by {
            lemma_enc_coef_range(slots, j);
            assert(c[j] as int == enc_coef(slots, j));
            lemma_enc_coef(slots, j);
            lemma_mul_mod_noop_left(c[j] as int, p(j), t);
            lemma_mul_mod_noop_left(ni * enc_sum(slots, j, N as nat), p(j), t);
            lemma_mod_twice(c[j] as int, t);
        }
        lemma_sum_mod(f, g, N as nat, t);
        lemma_sum_ext(|j: int| ((c[j] as int) % (T as int)) * pow_mod_spec(root(i), j, T as int), f, N as nat);
        assert(dec_val(c, i) == sum(f, N as nat) % t);
        lemma_regroup(slots, i);
        lemma_sum_ext(
            |j: int| (n_inv() * enc_sum(slots, j, N as nat)) * pow_mod_spec(root(i), j, T as int),
            g,
            N as nat,
        );
        let o = |k: int| slots[k] * orth_sum(i, k);
        let d = |k: int| slots[k] * (if k == i { N as int } else { 0 });
        assert forall|k: int| 0 <= k < N implies #[trigger] o(k) % t == d(k) % t by {
            lemma_orthogonal(i, k);
            lemma_mul_mod_noop_right(slots[k] as int, orth_sum(i, k), t);
            lemma_mul_mod_noop_right(slots[k] as int, if k == i { N as int } else { 0 }, t);
        }
        lemma_sum_mod(o, d, N as nat, t);
        assert forall|k: int| 0 <= k < N && k != i implies #[trigger] d(k) == 0 by {}
        lemma_sum_single(d, N as nat, i);
        let so = sum(o, N as nat);
        assert(sum(g, N as nat) == ni * so);
        lemma_mul_mod_noop_right(ni, so, t);
        lemma_mul_mod_noop_right(ni, slots[i] * 16, t);
        assert((ni * so) % t == (ni * (slots[i] * 16)) % t);
        lemma_n_inv();
        assert(ni * (slots[i] * 16) == (ni * 16) * slots[i]) by (nonlinear_arith);
        lemma_mul_mod_noop_left(ni * 16, slots[i] as int, t);
        lemma_mod_twice(sum(f, N as nat), t);
    }
}

/// `T = 97` is prime.
pub proof fn lemma_t_prime()
    ensures
        is_prime(T as int),
{
    assert forall|d: int| 2 <= d < T implies #[trigger] ((T as int) % d) != 0 by {
        let dd = d as u8;
        assert(97u8 % dd != 0) by (bit_vector)
            requires
                2 <= dd < 97,
        ;
    }
}

/// Fermat's inverse modulo the prime `T`: for `x` not divisible by `T`,
/// `pow_mod(x, T - 2, T)` is the inverse of `x` modulo `T`.
pub proof fn pow_mod_inverts(x: int)
    requires
        x % (T as int) != 0,
    ensures
        (pow_mod_spec(x, T - 2, T as int) * (x % (T as int))) % (T as int) == 1,
{
    lemma_t_prime();
    pow_mod_inverts_prime(T as int, x);
}

/// `OMEGA^a OMEGA^b = OMEGA^(a + b)` modulo `T`, exponents taken modulo 32.
proof fn lemma_wpow_add(a: int, b: int)
    ensures
        (wpow(a) * wpow(b)) % (T as int) == wpow(a + b),
{
    let w = OMEGA as int;
    let t = T as int;
    let ea = (a % 32) as nat;
    let eb = (b % 32) as nat;
    lemma_mul_mod_noop(pow(w, ea), pow(w, eb), t);
    lemma_mod_twice(pow(w, ea) * pow(w, eb), t);
    lemma_pow_adds(w, ea, eb);
    lemma_omega_period(ea + eb);
    lemma_add_mod_noop(a, b, 32);
    lemma_mul_mod_noop(pow(w, ea) % t, pow(w, eb) % t, t);
    lemma_mod_twice(pow(w, ea), t);
    lemma_mod_twice(pow(w, eb), t);
}

/// Term `i` of the sum over the evaluation points: `root_i^-j root_i^k`.
pub open spec fn dual_term(j: int, k: int, i: int) -> int {
    enc_term(i, j) * pow_mod_spec(root(i), k, T as int)
}

/// `root_i^-j root_i^k = OMEGA^((2i + 1)(k - j))` modulo `T`.
proof fn lemma_dual_term(j: int, k: int, i: int)
    requires
        0 <= i < N,
        0 <= j < N,
        0 <= k < N,
    ensures
        dual_term(j, k, i) % (T as int) == wpow((2 * i + 1) * (k - j)),
{
    let w = OMEGA as int;
    let t = T as int;
    let a = (2 * i + 1) as nat;
    assert(root(i) == pow(w, a) % t);
    let e1 = a * 95 * (j as nat);
    let e2 = a * (k as nat);
    // enc_term(i, j) = OMEGA^(95 a j) mod T
    lemma_pow_of_omega_power(a, 95);
    let inv = pow(w, a * 95) % t;
    assert(pow_mod_spec(root(i), T - 2, t) == inv);
    if j == 0 {
        lemma_pow0(w);
        assert(e1 == 0) by (nonlinear_arith)
            requires
                e1 == a * 95 * (j as nat),
                j == 0,
        ;
        assert(enc_term(i, j) == pow(w, e1) % t);
    } else {
        lemma_pow_of_omega_power(a * 95, j as nat);
        assert(enc_term(i, j) == pow(w, e1) % t);
    }
    if k == 0 {
        lemma_pow0(w);
        assert(e2 == 0) by (nonlinear_arith)
            requires
                e2 == a * (k as nat),
                k == 0,
        ;
        assert(pow_mod_spec(root(i), k, t) == pow(w, e2) % t);
    } else {
        lemma_pow_of_omega_power(a, k as nat);
        assert(pow_mod_spec(root(i), k, t) == pow(w, e2) % t);
    }
    lemma_mul_mod_noop(pow(w, e1), pow(w, e2), t);
    lemma_pow_adds(w, e1, e2);
    lemma_omega_period(e1 + e2);
    assert(e1 + e2 == (2 * i + 1) * (k - j) + 32 * (3 * j * (2 * i + 1))) by (nonlinear_arith)
        requires
            e1 == (2 * i + 1) * 95 * j,
            e2 == (2 * i + 1) * k,
    ;
    assert(3 * j * (2 * i + 1) >= 0) by (nonlinear_arith)
        requires
            j >= 0,
            i >= 0,
    ;
    lemma_mod_multiples_vanish(3 * j * (2 * i + 1), (2 * i + 1) * (k - j), 32);
}

/// The evaluation points are orthogonal in the other direction:
/// `sum_i root_i^-j root_i^k` is `N` when `j = k` and `0` otherwise, modulo `T`.
pub proof fn lemma_dual_orthogonal(j: int, k: int)
    requires
        0 <= j < N,
        0 <= k < N,
    ensures
        sum(|i: int| dual_term(j, k, i), N as nat) % (T as int) == if j == k { N as int } else { 0 },
{
    let t = T as int;
    let d = k - j;
    let f = |i: int| dual_term(j, k, i);
    let h = |x: int| wpow(2 * x * (k - j));
    let g = |i: int| wpow(d) * h(i);
    assert forall|i: int| 0 <= i < N implies #[trigger] f(i) % t == g(i) % t by {
        lemma_dual_term(j, k, i);
        lemma_wpow_add(d, 2 * i * d);
        assert((2 * i + 1) * d == d + 2 * i * d) by (nonlinear_arith);
        assert(2 * i * d == 2 * i * (k - j));
    }
    lemma_sum_mod(f, g, N as nat, t);
    lemma_sum_scale(h, wpow(d), N as nat);
    lemma_sum_ext(|i: int| wpow(d) * h(i), g, N as nat);
    let sh = sum(h, N as nat);
    if j == k {
        lemma_orth_diag(k);
        lemma_sum_ext(|x: int| wpow(2 * x * (k - k)), h, N as nat);
        lemma_pow0(OMEGA as int);
        assert(wpow(0) == 1);
        assert(sum(g, N as nat) == 16);
    } else {
        lemma_orth_off(k, j);
        lemma_sum_ext(|x: int| wpow(2 * x * (k - j)), h, N as nat);
        assert(sh % t == 0);
        lemma_mul_mod_noop_right(wpow(d), sh, t);
    }
}

/// The slots that `decode_slots` returns for the coefficients `c`.
pub open spec fn dec_slots(c: Seq<i64>) -> Seq<i64> {
    Seq::new(
        N as nat,
        |i: int| (if dec_val(c, i) > T / 2 { dec_val(c, i) - T } else { dec_val(c, i) }) as i64,
    )
}

/// Encoding inverts decoding: the polynomial that `encode_slots` builds from
/// `decode_slots(p)` has the coefficients of `p` modulo `T`.
pub proof fn slots_encode_inverts_decode(c: Seq<i64>)
    ensures
        forall|j: int| 0 <= j < N ==> #[trigger] enc_coef(dec_slots(c), j) % (T as int) == (c[j] as int) % (T as int),
{
    let t = T as int;
    let s = dec_slots(c);
    let ni = n_inv();
    assert forall|j: int| 0 <= j < N implies #[trigger] enc_coef(dec_slots(c), j) % t == (c[j] as int) % t by {
        lemma_enc_coef(s, j);
        let cm = |k: int| (c[k] as int) % t;
        let ff = |i: int, k: int| cm(k) * dual_term(j, k, i);
        // s_i root_i^-j = sum_k (c_k mod T) root_i^k root_i^-j (mod T)
        let u = |i: int| s[i] * enc_term(i, j);
        let v = |i: int| sum(|k: int| ff(i, k), N as nat);
        assert forall|i: int| 0 <= i < N implies #[trigger] u(i) % t == v(i) % t by {
            let pk = |k: int| cm(k) * pow_mod_spec(root(i), k, t);
            let e = enc_term(i, j);
            let dv = sum(pk, N as nat);
            lemma_sum_ext(
                |jj: int| ((c[jj] as int) % (T as int)) * pow_mod_spec(root(i), jj, T as int),
                pk,
                N as nat,
            );
            assert(dec_val(c, i) == dv % t);
            assert((s[i] as int) % t == dv % t) by {
                if dec_val(c, i) > T / 2 {
                    lemma_mod_sub_multiples_vanish(dec_val(c, i), t);
                    lemma_mod_twice(dv, t);
                } else {
                    lemma_mod_twice(dv, t);
                }
            }
            lemma_mul_mod_noop_left(s[i] as int, e, t);
            lemma_mul_mod_noop_left(dv, e, t);
            lemma_sum_scale(pk, e, N as nat);
            assert forall|k: int| 0 <= k < N implies #[trigger] (e * pk(k)) == ff(i, k) by {
                assert(e * (cm(k) * pow_mod_spec(root(i), k, t)) == cm(k) * (e * pow_mod_spec(root(i), k, t)))
                    by (nonlinear_arith);
            }
            lemma_sum_ext(|k: int| e * pk(k), |k: int| ff(i, k), N as nat);
            lemma_mul_is_commutative(dv, e);
        }
        lemma_sum_mod(u, v, N as nat, t);
        assert(enc_sum(s, j, N as nat) == sum(u, N as nat));
        lemma_sum_swap(ff, N as nat, N as nat);
        // sum_k (c_k mod T) sum_i root_i^-j root_i^k = (c_j mod T) N (mod T)
        let w1 = |k: int| sum(|i: int| ff(i, k), N as nat);
        let w2 = |k: int| cm(k) * sum(|i: int| dual_term(j, k, i), N as nat);
        let w3 = |k: int| cm(k) * (if k == j { N as int } else { 0 });
        assert forall|k: int| 0 <= k < N implies #[trigger] w1(k) % t == w3(k) % t by {
            let dk = |i: int| dual_term(j, k, i);
            lemma_sum_scale(dk, cm(k), N as nat);
            lemma_sum_ext(|i: int| ff(i, k), |x: int| cm(k) * dk(x), N as nat);
            lemma_sum_ext(dk, |i: int| dual_term(j, k, i), N as nat);
            assert(w1(k) == w2(k));
            lemma_dual_orthogonal(j, k);
            lemma_mul_mod_noop_right(cm(k), sum(|i: int| dual_term(j, k, i), N as nat), t);
            lemma_mul_mod_noop_right(cm(k), if k == j { N as int } else { 0 }, t);
            if k == j {
                lemma_small_mod(16, 97);
            }
        }
        lemma_sum_mod(w1, w3, N as nat, t);
        assert forall|k: int| 0 <= k < N && k != j implies #[trigger] w3(k) == 0 by {}
        lemma_sum_single(w3, N as nat, j);
        let es = enc_sum(s, j, N as nat);
        let tot = sum(|i: int| sum(|k: int| ff(i, k), N as nat), N as nat);
        assert(sum(v, N as nat) == tot);
        assert(tot == sum(w1, N as nat));
        assert(es % t == (cm(j) * 16) % t);
        lemma_mul_mod_noop_right(ni, es, t);
        lemma_mul_mod_noop_right(ni, cm(j) * 16, t);
        assert(ni * (cm(j) * 16) == (ni * 16) * cm(j)) by (nonlinear_arith);
        lemma_n_inv();
        lemma_mul_mod_noop_left(ni * 16, cm(j), t);
        lemma_mod_twice(c[j] as int, t);
    }
}

/// The powers of an evaluation point: `root_i^k mod T = OMEGA^((2i + 1) k) mod T`.
proof fn lemma_root_pow(i: int, k: int)
    requires
        0 <= i < N,
        0 <= k,
    ensures
        pow_mod_spec(root(i), k, T as int) == wpow((2 * i + 1) * k),
{
    let w = OMEGA as int;
    let t = T as int;
    let a = (2 * i + 1) as nat;
    assert(root(i) == pow(w, a) % t);
    if k == 0 {
        lemma_pow0(w);
        assert((2 * i + 1) * k == 0) by (nonlinear_arith)
            requires
                k == 0,
        ;
    } else {
        lemma_pow_of_omega_power(a, k as nat);
        assert(a * (k as nat) >= 0);
        lemma_omega_period(a * (k as nat));
    }
}

/// `OMEGA^16 = -1` modulo `T`.
proof fn lemma_wpow16()
    ensures
        wpow(16) == 96,
{
    lemma_square_is_pow2(28);
    lemma_square_mod(28, 2, 97, 8);
    lemma_square_mod(28, 4, 97, 64);
    lemma_square_mod(28, 8, 97, 22);
    lemma_small_mod(16, 32);
}

/// Evaluating the sign pattern of `X^a X^j` at a root: `sum_t sg(a, j, t) root^t`
/// is `root^a root^j` modulo `T`, since `root^N = -1`.
proof fn lemma_sg_eval(i: int, a: int, j: int)
    requires
        0 <= i < N,
        0 <= a < N,
        0 <= j < N,
    ensures
        sum(|u: int| sg(a, j, u) * pow_mod_spec(root(i), u, T as int), N as nat) % (T as int)
            == (pow_mod_spec(root(i), a, T as int) * pow_mod_spec(root(i), j, T as int)) % (T as int),
{
    let t = T as int;
    let f = |u: int| sg(a, j, u) * pow_mod_spec(root(i), u, T as int);
    let b = 2 * i + 1;
    lemma_root_pow(i, a);
    lemma_root_pow(i, j);
    lemma_wpow_add(b * a, b * j);
    assert(b * a + b * j == b * (a + j)) by (nonlinear_arith);
    if a + j < N {
        let u0 = a + j;
        assert forall|u: int| 0 <= u < N && u != u0 implies #[trigger] f(u) == 0 by {}
        lemma_sum_single(f, N as nat, u0);
        lemma_root_pow(i, u0);
    } else {
        let u0 = a + j - N;
        assert forall|u: int| 0 <= u < N && u != u0 implies #[trigger] f(u) == 0 by {}
        lemma_sum_single(f, N as nat, u0);
        lemma_root_pow(i, u0);
        let x = b * u0;
        assert(b * (a + j) == x + 16 + 32 * i) by (nonlinear_arith)
            requires
                b == 2 * i + 1,
                u0 == a + j - 16,
                x == b * u0,
        ;
        lemma_mod_multiples_vanish(i, x + 16, 32);
        assert(wpow(b * (a + j)) == wpow(x + 16));
        lemma_wpow_add(x, 16);
        lemma_wpow16();
        assert(f(u0) == -wpow(x));
        lemma_mod_multiples_vanish(wpow(x), -wpow(x), 97);
        assert(-wpow(x) + 97 * wpow(x) == 96 * wpow(x));
        lemma_mul_is_commutative(wpow(x), 96);
    }
}

/// The evaluation `sum_k x_k root_i^k` of a coefficient function at root `i`.
pub open spec fn ev(x: spec_fn(int) -> int, i: int) -> int {
    sum(|k: int| x(k) * pow_mod_spec(root(i), k, T as int), N as nat)
}

/// Evaluation at a root is multiplicative on the negacyclic product:
/// `ev(x * y) = ev(x) ev(y)` modulo `T`.
#[verifier::spinoff_prover]
#[verifier::rlimit(40)]
proof fn lemma_ev_product(x: spec_fn(int) -> int, y: spec_fn(int) -> int, i: int)
    requires
        0 <= i < N,
    ensures
        sum(|u: int| cv2(x, y, u) * pow_mod_spec(root(i), u, T as int), N as nat) % (T as int)
            == (ev(x, i) * ev(y, i)) % (T as int),
{
    let t = T as int;
    let pw = |u: int| pow_mod_spec(root(i), u, T as int);
    let t3 = |u: int, a: int, j: int| cv2_term(x, y, u, a, j) * pw(u);
    let r2 = |u: int, a: int| sum(|j: int| t3(u, a, j), N as nat);
    // cv2(u) pw(u) = sum_a sum_j t3(u, a, j)
    assert forall|u: int| 0 <= u < N implies #[trigger] (cv2(x, y, u) * pw(u)) == sum(|a: int| r2(u, a), N as nat) by {
        let row = |a: int| cv2_row(x, y, u, a);
        lemma_sum_scale(row, pw(u), N as nat);
        lemma_mul_is_commutative(cv2(x, y, u), pw(u));
        assert forall|a: int| 0 <= a < N implies #[trigger] (pw(u) * row(a)) == r2(u, a) by {
            let g = |j: int| cv2_term(x, y, u, a, j);
            lemma_sum_scale(g, pw(u), N as nat);
            assert forall|j: int| 0 <= j < N implies #[trigger] (pw(u) * g(j)) == t3(u, a, j) by {
                lemma_mul_is_commutative(pw(u), g(j));
            }
            lemma_sum_ext(|k: int| pw(u) * g(k), |j: int| t3(u, a, j), N as nat);
            lemma_sum_ext(g, |j: int| cv2_term(x, y, u, a, j), N as nat);
        }
        lemma_sum_ext(|k: int| pw(u) * row(k), |a: int| r2(u, a), N as nat);
        lemma_sum_ext(row, |a: int| cv2_row(x, y, u, a), N as nat);
    }
    lemma_sum_ext(
        |u: int| cv2(x, y, u) * pow_mod_spec(root(i), u, T as int),
        |u: int| sum(|a: int| r2(u, a), N as nat),
        N as nat,
    );
    lemma_sum_swap(r2, N as nat, N as nat);
    // For each a: sum_u sum_j t3 = sum_j sum_u t3 = sum_j x_a y_j sum_u sg pw
    let inner = |a: int, j: int| x(a) * y(j) * sum(|u: int| sg(a, j, u) * pw(u), N as nat);
    let target = |a: int, j: int| x(a) * y(j) * (pw(a) * pw(j));
    let lhs_a = |a: int| sum(|u: int| r2(u, a), N as nat);
    let rhs_a = |a: int| sum(|j: int| target(a, j), N as nat);
    assert forall|a: int| 0 <= a < N implies #[trigger] lhs_a(a) % t == rhs_a(a) % t by {
        let f2 = |u: int, j: int| t3(u, a, j);
        lemma_sum_swap(f2, N as nat, N as nat);
        assert forall|u: int| 0 <= u < N implies #[trigger] r2(u, a) == sum(|j: int| f2(u, j), N as nat) by {
            lemma_sum_ext(|j: int| t3(u, a, j), |j: int| f2(u, j), N as nat);
        }
        lemma_sum_ext(|u: int| r2(u, a), |u: int| sum(|j: int| f2(u, j), N as nat), N as nat);
        let lhs_j = |j: int| sum(|u: int| f2(u, j), N as nat);
        assert forall|j: int| 0 <= j < N implies #[trigger] lhs_j(j) % t == target(a, j) % t by {
            let sgp = |u: int| sg(a, j, u) * pw(u);
            let c = x(a) * y(j);
            lemma_sum_scale(sgp, c, N as nat);
            assert forall|u: int| 0 <= u < N implies #[trigger] f2(u, j) == c * sgp(u) by {
                assert(sg(a, j, u) * x(a) * y(j) * pw(u) == (x(a) * y(j)) * (sg(a, j, u) * pw(u)))
                    by (nonlinear_arith);
            }
            lemma_sum_ext(|u: int| f2(u, j), |k: int| c * sgp(k), N as nat);
            lemma_sg_eval(i, a, j);
            lemma_sum_ext(sgp, |u: int| sg(a, j, u) * pow_mod_spec(root(i), u, T as int), N as nat);
            lemma_mul_mod_noop_right(c, sum(sgp, N as nat), t);
            lemma_mul_mod_noop_right(c, pw(a) * pw(j), t);
        }
        lemma_sum_mod(lhs_j, |j: int| target(a, j), N as nat, t);
        lemma_sum_ext(lhs_j, |j: int| sum(|u: int| f2(u, j), N as nat), N as nat);
    }
    lemma_sum_mod(lhs_a, rhs_a, N as nat, t);
    lemma_sum_ext(lhs_a, |a: int| sum(|u: int| r2(u, a), N as nat), N as nat);
    // sum_a sum_j x_a pw_a y_j pw_j = ev(x) ev(y)
    let ex = |a: int| x(a) * pw(a);
    let ey = |j: int| y(j) * pw(j);
    assert forall|a: int| 0 <= a < N implies #[trigger] rhs_a(a) == ex(a) * sum(ey, N as nat) by {
        lemma_sum_scale(ey, ex(a), N as nat);
        assert forall|j: int| 0 <= j < N implies #[trigger] target(a, j) == ex(a) * ey(j) by {
            assert(x(a) * y(j) * (pw(a) * pw(j)) == (x(a) * pw(a)) * (y(j) * pw(j))) by (nonlinear_arith);
        }
        lemma_sum_ext(|j: int| target(a, j), |k: int| ex(a) * ey(k), N as nat);
    }
    let sy = sum(ey, N as nat);
    lemma_sum_ext(rhs_a, |a: int| ex(a) * sy, N as nat);
    lemma_sum_scale(ex, sy, N as nat);
    lemma_sum_ext(|a: int| ex(a) * sy, |k: int| sy * ex(k), N as nat);
    assert forall|k: int| 0 <= k < N implies #[trigger] (ex(k) * sy) == sy * ex(k) by {
        lemma_mul_is_commutative(ex(k), sy);
    }
    lemma_sum_ext(ex, |k: int| x(k) * pow_mod_spec(root(i), k, T as int), N as nat);
    lemma_sum_ext(ey, |k: int| y(k) * pow_mod_spec(root(i), k, T as int), N as nat);
    lemma_mul_is_commutative(sy, sum(ex, N as nat));
}

/// Decoding is evaluation at the root modulo `T`.
proof fn lemma_dec_val_ev(c: Seq<i64>, i: int)
    requires
        0 <= i < N,
    ensures
        dec_val(c, i) == ev(sf(c), i) % (T as int),
        dec_slots(c)[i] as int % (T as int) == dec_val(c, i),
{
    let t = T as int;
    let f = |j: int| ((c[j] as int) % t) * pow_mod_spec(root(i), j, t);
    let g = |j: int| sf(c)(j) * pow_mod_spec(root(i), j, t);
    assert forall|j: int| 0 <= j < N implies #[trigger] f(j) % t == g(j) % t by {
        lemma_mul_mod_noop_left(c[j] as int, pow_mod_spec(root(i), j, t), t);
    }
    lemma_sum_mod(f, g, N as nat, t);
    lemma_sum_ext(|j: int| ((c[j] as int) % (T as int)) * pow_mod_spec(root(i), j, T as int), f, N as nat);
    lemma_sum_ext(|k: int| sf(c)(k) * pow_mod_spec(root(i), k, T as int), g, N as nat);
    lemma_mod_twice(sum(f, N as nat), t);
    let d = dec_val(c, i);
    if d > T / 2 {
        lemma_mod_sub_multiples_vanish(d, t);
    }
    lemma_mod_twice(sum(g, N as nat), t);
}

/// Decoding turns the negacyclic product into the slotwise product: when the
/// coefficients of `r` are those of `p * q` in `Z[X]/(X^N + 1)`, computed without
/// reduction, each slot of `r` is the product of the slots of `p` and `q` modulo
/// `T`.
pub proof fn slots_decode_multiplicative(p: Seq<i64>, q: Seq<i64>, r: Seq<i64>)
    requires
        forall|k: int| 0 <= k < N ==> #[trigger] r[k] as int == nc_coef(p, q, k),
    ensures
        forall|i: int| 0 <= i < N ==> #[trigger] dec_val(r, i) == (dec_val(p, i) * dec_val(q, i)) % (T as int),
        forall|i: int|
            0 <= i < N ==> (#[trigger] dec_slots(r)[i] - dec_slots(p)[i] * dec_slots(q)[i]) % (T as int) == 0,
{
    let t = T as int;
    assert forall|i: int| 0 <= i < N implies #[trigger] dec_val(r, i) == (dec_val(p, i) * dec_val(q, i)) % t by {
        lemma_dec_val_ev(r, i);
        lemma_dec_val_ev(p, i);
        lemma_dec_val_ev(q, i);
        assert forall|u: int| 0 <= u < N implies #[trigger] sf(r)(u) == cv2(sf(p), sf(q), u) by {
            lemma_nc_coef_is_cv(p, q, u);
            lemma_cv_double(sf(p), sf(q), u);
        }
        lemma_sum_ext(
            |k: int| sf(r)(k) * pow_mod_spec(root(i), k, T as int),
            |u: int| cv2(sf(p), sf(q), u) * pow_mod_spec(root(i), u, T as int),
            N as nat,
        );
        lemma_ev_product(sf(p), sf(q), i);
        lemma_mul_mod_noop(ev(sf(p), i), ev(sf(q), i), t);
    }
    assert forall|i: int| 0 <= i < N implies (#[trigger] dec_slots(r)[i] - dec_slots(p)[i] * dec_slots(q)[i]) % t
        == 0 by {
        lemma_dec_val_ev(r, i);
        lemma_dec_val_ev(p, i);
        lemma_dec_val_ev(q, i);
        let sr = dec_slots(r)[i] as int;
        let sp = dec_slots(p)[i] as int;
        let sq = dec_slots(q)[i] as int;
        lemma_mul_mod_noop(sp, sq, t);
        lemma_sub_mod_noop(sr, sp * sq, t);
        assert((sr % t - (sp * sq) % t) == 0);
    }
}

/// Decoding turns the coefficientwise sum into the slotwise sum: when the
/// coefficients of `s` are the sums of those of `p` and `q`, computed without
/// reduction, each slot of `s` is the sum of the slots of `p` and `q` modulo `T`.
pub proof fn slots_decode_additive(p: Seq<i64>, q: Seq<i64>, s: Seq<i64>)
    requires
        forall|k: int| 0 <= k < N ==> #[trigger] s[k] as int == p[k] + q[k],
    ensures
        forall|i: int| 0 <= i < N ==> #[trigger] dec_val(s, i) == (dec_val(p, i) + dec_val(q, i)) % (T as int),
        forall|i: int|
            0 <= i < N ==> (#[trigger] dec_slots(s)[i] - dec_slots(p)[i] - dec_slots(q)[i]) % (T as int) == 0,
{
    let t = T as int;
    assert forall|i: int| 0 <= i < N implies #[trigger] dec_val(s, i) == (dec_val(p, i) + dec_val(q, i)) % t by {
        lemma_dec_val_ev(s, i);
        lemma_dec_val_ev(p, i);
        lemma_dec_val_ev(q, i);
        let fp = |k: int| sf(p)(k) * pow_mod_spec(root(i), k, T as int);
        let fq = |k: int| sf(q)(k) * pow_mod_spec(root(i), k, T as int);
        lemma_sum_add(fp, fq, N as nat);
        assert forall|k: int| 0 <= k < N implies #[trigger] (sf(s)(k) * pow_mod_spec(root(i), k, T as int))
            == fp(k) + fq(k) by {
            lemma_mul_is_distributive_add_other_way(pow_mod_spec(root(i), k, T as int), p[k] as int, q[k] as int);
        }
        lemma_sum_ext(
            |k: int| sf(s)(k) * pow_mod_spec(root(i), k, T as int),
            |k: int| fp(k) + fq(k),
            N as nat,
        );
        lemma_sum_ext(fp, |k: int| sf(p)(k) * pow_mod_spec(root(i), k, T as int), N as nat);
        lemma_sum_ext(fq, |k: int| sf(q)(k) * pow_mod_spec(root(i), k, T as int), N as nat);
        lemma_add_mod_noop(ev(sf(p), i), ev(sf(q), i), t);
    }
    assert forall|i: int| 0 <= i < N implies (#[trigger] dec_slots(s)[i] - dec_slots(p)[i] - dec_slots(q)[i]) % t
        == 0 by {
        lemma_dec_val_ev(s, i);
        lemma_dec_val_ev(p, i);
        lemma_dec_val_ev(q, i);
        let ss = dec_slots(s)[i] as int;
        let sp = dec_slots(p)[i] as int;
        let sq = dec_slots(q)[i] as int;
        lemma_add_mod_noop(sp, sq, t);
        lemma_sub_mod_noop(ss, sp + sq, t);
        assert(ss - sp - sq == ss - (sp + sq));
        assert((ss % t - (sp + sq) % t) == 0);
    }
}

} // verus!
