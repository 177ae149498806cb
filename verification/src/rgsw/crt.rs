//! Packing of `N` integers modulo `T` into one polynomial (CRT slots), by
//! evaluation at the odd powers of a primitive `2N`-th root of unity.
use vstd::prelude::*;
use vstd::arithmetic::power::*;
use vstd::arithmetic::div_mod::*;
use vstd::arithmetic::mul::*;
use crate::arith::{abs, rem_euclid, sum, lemma_mod_add_left};
use crate::params::rgsw::{N, T, OMEGA};
use super::poly::Poly;

verus! {

/// What `pow_mod` returns: `1` for a non-positive exponent, and
/// `(base mod m)^exp mod m` otherwise.
pub open spec fn pow_mod_spec(base: int, exp: int, m: int) -> int {
    if exp <= 0 { 1 } else { pow(base % m, exp as nat) % m }
}

/// The remainder of `x / d` rounded toward zero, as Rust's `%` computes it.
pub open spec fn trunc_rem(x: int, d: int) -> int {
    if x >= 0 { x % d } else { -((-x) % d) }
}

/// Modular exponentiation by repeated squaring: `(base mod m)^exp mod m` for a
/// positive exponent, and `1` when the exponent is not positive.
pub fn pow_mod(base: i64, exp: i64, modulus: i64) -> (r: i64)
    requires
        modulus > 0,
        (modulus - 1) * (modulus - 1) <= i64::MAX,
    ensures
        r == pow_mod_spec(base as int, exp as int, modulus as int),
{
    let ghost m = modulus as int;
    let ghost b0 = (base as int) % m;
    let mut res: i64 = 1;
    let mut b = rem_euclid(base, modulus);
    let mut e = exp;
    proof {
        if exp > 0 {
            lemma_pow0(b as int);
        }
    }
    while e > 0
        invariant
            m == modulus as int,
            modulus > 0,
            (modulus - 1) * (modulus - 1) <= i64::MAX,
            b0 == (base as int) % m,
            0 <= b < modulus,
            e <= exp,
            exp > 0 ==> 0 <= e,
            exp <= 0 ==> res == 1,
            0 <= res,
            res < modulus || res == 1,
            exp > 0 ==> (res * pow(b as int, e as nat)) % m == pow(b0, exp as nat) % m,
            exp > 0 && e == 0 ==> res < modulus,
        decreases e,
    {
        let ghost e_old = e as int;
        let ghost b_old = b as int;
        let ghost res_old = res as int;
        proof {
            assert(0 <= res * b <= (modulus - 1) * (modulus - 1)) by (nonlinear_arith)
                requires
                    0 <= b < modulus,
                    0 <= res,
                    res < modulus || res == 1,
                    modulus > 0,
            ;
            assert(0 <= b * b <= (modulus - 1) * (modulus - 1)) by (nonlinear_arith)
                requires
                    0 <= b < modulus,
            ;
        }
        let odd = e % 2 == 1;
        if odd {
            res = (res * b) % modulus;
        }
        b = (b * b) % modulus;
        e = e / 2;
        proof {
            let k = e as nat;
            // pow(b_old, e_old) = pow(b_old * b_old, k) * (odd ? b_old : 1)
            lemma_pow_multiplies(b_old, 2, k);
            lemma_square_is_pow2(b_old);
            lemma_pow_mod_noop(b_old * b_old, k, m);
            if odd {
                assert(e_old == 2 * k + 1);
                lemma_pow_adds(b_old, 2 * k, 1);
                lemma_pow1(b_old);
                let pk = pow(b_old * b_old, k);
                let pb = pow(b as int, k);
                assert(pb % m == pk % m);
                // res * pb = (res_old * b_old mod m) * pb = res_old * b_old * pk (mod m)
                lemma_mul_mod_noop_left(res_old * b_old, pb, m);
                lemma_mul_mod_noop_right(res_old * b_old, pb, m);
                lemma_mul_mod_noop_right(res_old * b_old, pk, m);
                assert((res * pb) % m == ((res_old * b_old) * pk) % m);
                assert(pow(b_old, e_old as nat) == pk * b_old);
                lemma_mul_is_associative(res_old, b_old, pk);
                lemma_mul_is_commutative(b_old, pk);
                lemma_mul_is_associative(res_old, pk, b_old);
            } else {
                assert(e_old == 2 * k);
                let pk = pow(b_old * b_old, k);
                let pb = pow(b as int, k);
                lemma_mul_mod_noop_right(res_old, pb, m);
                lemma_mul_mod_noop_right(res_old, pk, m);
            }
        }
    }
    proof {
        if exp > 0 {
            lemma_pow0(b as int);
            lemma_small_mod(res as nat, m as nat);
        }
    }
    res
}

/// The remainder `x % m` rounded toward zero, as Rust's `%` computes it.
fn rem_toward_zero(x: i64, m: i64) -> (r: i64)
    requires
        m > 0,
    ensures
        r == trunc_rem(x as int, m as int),
{
    match x.checked_rem(m) {
        Some(r) => r,
        None => 0,
    }
}

/// The `i`-th evaluation point, `OMEGA^(2i + 1) mod T`.
pub open spec fn root(i: int) -> int {
    pow_mod_spec(OMEGA as int, 2 * i + 1, T as int)
}

/// The term `(root_i^-1)^j mod T` of the encoding, the inverse computed as
/// `root_i^(T - 2)`.
pub open spec fn enc_term(i: int, j: int) -> int {
    pow_mod_spec(pow_mod_spec(root(i), T - 2, T as int), j, T as int)
}

/// The running sum of the encoding of coefficient `j` over the first `n` slots,
/// each step reduced with Rust's `%`.
pub open spec fn enc_acc(slots: Seq<i64>, j: int, n: nat) -> int
    decreases n,
{
    if n == 0 {
        0
    } else {
        trunc_rem(enc_acc(slots, j, (n - 1) as nat) + slots[n - 1] * enc_term(n - 1, j), T as int)
    }
}

/// `N^-1 mod T`, computed as `N^(T - 2) mod T`.
pub open spec fn n_inv() -> int {
    pow_mod_spec(N as int, T - 2, T as int)
}

/// Coefficient `j` of the encoding: the running sum times `N^-1`, reduced with
/// Rust's `%`, and moved down by `T` when above `T / 2`.
pub open spec fn enc_coef(slots: Seq<i64>, j: int) -> int {
    let c = trunc_rem(enc_acc(slots, j, N as nat) * n_inv(), T as int);
    if c > T / 2 { c - T } else { c }
}

/// The slots can be encoded without leaving the range of `i64`: no product
/// `slots[i] * root_i^-j` and no step of a running sum overflows.
pub open spec fn encodable(slots: Seq<i64>) -> bool {
    forall|i: int, j: int|
        0 <= i < N && 0 <= j < N ==> {
            &&& i64::MIN <= slots[i] * #[trigger] enc_term(i, j) <= i64::MAX
            &&& i64::MIN <= enc_acc(slots, j, i as nat) + slots[i] * enc_term(i, j) <= i64::MAX
        }
}

/// `T - 1` squared fits in `i64`.
proof fn lemma_t_small()
    ensures
        (T - 1) * (T - 1) <= i64::MAX,
{
    assert(T == 97);
    assert((T - 1) * (T - 1) == 9216) by (nonlinear_arith)
        requires
            T == 97,
    ;
}

/// Values of `pow_mod_spec` modulo `T` lie in `[0, T)` for a positive exponent.
proof fn lemma_pow_mod_range(b: int, e: int)
    ensures
        e > 0 ==> 0 <= pow_mod_spec(b, e, T as int) < T,
        0 <= pow_mod_spec(b, e, T as int) < T,
{
}

/// Every running sum of the encoding lies in `(-T, T)`.
proof fn lemma_enc_acc_range(slots: Seq<i64>, j: int, n: nat)
    ensures
        -(T as int) < enc_acc(slots, j, n) < T,
{
}

/// Slots whose magnitudes stay below `(i64::MAX - T) / (T - 1)` can always be
/// encoded: each term `slots[i] * root_i^-j` has a factor below `T`.
pub proof fn lemma_small_slots_encodable(slots: Seq<i64>)
    requires
        forall|i: int| 0 <= i < N ==> abs(#[trigger] slots[i] as int) * (T - 1) + T <= i64::MAX,
    ensures
        encodable(slots),
{
    assert forall|i: int, j: int| 0 <= i < N && 0 <= j < N implies {
        &&& i64::MIN <= slots[i] * #[trigger] enc_term(i, j) <= i64::MAX
        &&& i64::MIN <= enc_acc(slots, j, i as nat) + slots[i] * enc_term(i, j) <= i64::MAX
    } by {
        let t = enc_term(i, j);
        let s = slots[i] as int;
        lemma_pow_mod_range(pow_mod_spec(root(i), T - 2, T as int), j);
        lemma_enc_acc_range(slots, j, i as nat);
        assert(abs(s * t) <= abs(s) * (T - 1)) by (nonlinear_arith)
            requires
                0 <= t < T,
        ;
    }
}

/// Encodes `N` slot values into a polynomial whose evaluations at the points
/// `OMEGA^(2i + 1)` modulo `T` are the slots: coefficient `j` is
/// `N^-1 sum_i slots[i] root_i^-j`, reduced modulo `T` toward zero and centred.
pub fn encode_slots(slots: &[i64; N]) -> (p: Poly)
    requires
        encodable(slots@),
    ensures
        forall|j: int| 0 <= j < N ==> #[trigger] p.coefs@[j] == enc_coef(slots@, j),
{
    proof {
        lemma_t_small();
    }
    let mut roots = [0i64; N];
    let mut i: usize = 0;
    while i < N
        invariant
            i <= N,
            (T - 1) * (T - 1) <= i64::MAX,
            forall|k: int| 0 <= k < i ==> #[trigger] roots@[k] == root(k),
        decreases N - i,
    {
        roots[i] = pow_mod(OMEGA, 2 * (i as i64) + 1, T);
        i += 1;
    }
    let n_inv_v = pow_mod(N as i64, T - 2, T);
    let mut poly = Poly::zero();
    let mut j: usize = 0;
    while j < N
        invariant
            j <= N,
            (T - 1) * (T - 1) <= i64::MAX,
            encodable(slots@),
            forall|k: int| 0 <= k < N ==> #[trigger] roots@[k] == root(k),
            n_inv_v == n_inv(),
            forall|k: int| 0 <= k < j ==> #[trigger] poly.coefs@[k] == enc_coef(slots@, k),
        decreases N - j,
    {
        let mut acc: i64 = 0;
        let mut i: usize = 0;
        while i < N
            invariant
                i <= N,
                j < N,
                (T - 1) * (T - 1) <= i64::MAX,
                encodable(slots@),
                forall|k: int| 0 <= k < N ==> #[trigger] roots@[k] == root(k),
                acc == enc_acc(slots@, j as int, i as nat),
                -T < acc < T,
            decreases N - i,
        {
            proof {
                lemma_pow_mod_range(roots[i as int] as int, T - 2);
            }
            let r_inv = pow_mod(roots[i], T - 2, T);
            let term = pow_mod(r_inv, j as i64, T);
            let s = slots[i];
            proof {
                lemma_pow_mod_range(r_inv as int, j as int);
                assert(term as int == enc_term(i as int, j as int));
            }
            acc = rem_toward_zero(acc + s * term, T);
            i += 1;
        }
        proof {
            lemma_pow_mod_range(N as int, T - 2);
            assert(-97 * 97 <= acc * n_inv_v <= 97 * 97) by (nonlinear_arith)
                requires
                    -97 < acc < 97,
                    0 <= n_inv_v < 97,
            ;
        }
        let mut coef = rem_toward_zero(acc * n_inv_v, T);
        if coef > T / 2 {
            coef = coef - T;
        }
        poly.coefs[j] = coef;
        j += 1;
    }
    poly
}

/// The `i`-th evaluation of a polynomial modulo `T`:
/// `sum_j (c_j mod T) root_i^j mod T`.
pub open spec fn dec_val(coefs: Seq<i64>, i: int) -> int {
    sum(|j: int| ((coefs[j] as int) % (T as int)) * pow_mod_spec(root(i), j, T as int), N as nat) % (T as int)
}

/// Decodes a polynomial into its `N` slot values: slot `i` is its evaluation at
/// `OMEGA^(2i + 1)` modulo `T`, centred into `(-T/2, T/2]`.
pub fn decode_slots(poly: &Poly) -> (slots: [i64; N])
    ensures
        forall|i: int|
            0 <= i < N ==> #[trigger] slots@[i] == if dec_val(poly.coefs@, i) > T / 2 {
                dec_val(poly.coefs@, i) - T
            } else {
                dec_val(poly.coefs@, i)
            },
{
    proof {
        lemma_t_small();
    }
    let mut slots = [0i64; N];
    let mut i: usize = 0;
    while i < N
        invariant
            i <= N,
            (T - 1) * (T - 1) <= i64::MAX,
            forall|k: int|
                0 <= k < i ==> #[trigger] slots@[k] == if dec_val(poly.coefs@, k) > T / 2 {
                    dec_val(poly.coefs@, k) - T
                } else {
                    dec_val(poly.coefs@, k)
                },
        decreases N - i,
    {
        let ghost f = |j: int| ((poly.coefs@[j] as int) % (T as int)) * pow_mod_spec(root(i as int), j, T as int);
        let mut val: i64 = 0;
        let mut j: usize = 0;
        while j < N
            invariant
                i < N,
                j <= N,
                (T - 1) * (T - 1) <= i64::MAX,
                f == (|j: int| ((poly.coefs@[j] as int) % (T as int)) * pow_mod_spec(root(i as int), j, T as int)),
                val == sum(f, j as nat) % (T as int),
                0 <= val < T,
            decreases N - j,
        {
            let c = rem_euclid(poly.coefs[j], T);
            let r = pow_mod(OMEGA, 2 * (i as i64) + 1, T);
            proof {
                lemma_pow_mod_range(r as int, j as int);
            }
            let x_pow = pow_mod(r, j as i64, T);
            proof {
                assert(0 <= c * x_pow <= 96 * 96) by (nonlinear_arith)
                    requires
                        0 <= c < 97,
                        0 <= x_pow < 97,
                ;
                lemma_mod_add_left(sum(f, j as nat), f(j as int), T as int);
                assert(f(j as int) == c * x_pow);
            }
            val = (val + c * x_pow) % T;
            j += 1;
        }
        slots[i] = if val > T / 2 { val - T } else { val };
        i += 1;
    }
    slots
}

} // verus!
