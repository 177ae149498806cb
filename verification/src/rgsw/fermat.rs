//! Fermat's little theorem, behind the inverses that `pow_mod` computes: for a
//! prime `p` and `x` not divisible by `p`, `x^(p-2)` is the inverse of `x` modulo
//! `p`. The proof goes through Euclid's lemma, the binomial theorem and
//! `(x + 1)^p = x^p + 1` modulo `p`.
use vstd::prelude::*;
use vstd::arithmetic::div_mod::*;
use vstd::arithmetic::mul::*;
use vstd::arithmetic::power::*;
use crate::arith::{sum, lemma_sum_ext, lemma_sum_mod, lemma_sum_scale, lemma_sum_add, lemma_sum_split};
use super::crt::pow_mod_spec;

verus! {

/// `p` is a prime: at least 2, with no divisor strictly between 1 and `p`.
pub open spec fn is_prime(p: int) -> bool {
    p >= 2 && forall|d: int| 2 <= d < p ==> #[trigger] (p % d) != 0
}

/// Euclid's lemma: a prime that divides `a b` with `0 < a < p` divides `b`.
pub proof fn lemma_euclid(p: int, a: int, b: int)
    requires
        is_prime(p),
        0 < a < p,
        (a * b) % p == 0,
    ensures
        b % p == 0,
    decreases a,
{
    if a > 1 {
        let r = p % a;
        let q = p / a;
        lemma_fundamental_div_mod(p, a);
        assert(r != 0);
        assert(0 < r < a);
        lemma_fundamental_div_mod(a * b, p);
        let m = (a * b) / p;
        assert(a * b == p * m);
        assert(r * b == p * (b - q * m)) by (nonlinear_arith)
            requires
                p == a * q + r,
                a * b == p * m,
        ;
        lemma_mod_multiples_basic(b - q * m, p);
        lemma_mul_is_commutative(p, b - q * m);
        lemma_euclid(p, r, b);
    } else {
        assert(a * b == b) by (nonlinear_arith)
            requires
                a == 1,
        ;
    }
}

/// The binomial coefficient `C(n, k)`, zero outside `0 <= k <= n`.
pub open spec fn binom(n: nat, k: int) -> nat
    decreases n,
{
    if k < 0 || k > n {
        0
    } else if k == 0 {
        1
    } else {
        (binom((n - 1) as nat, k - 1) + binom((n - 1) as nat, k)) as nat
    }
}

/// Pascal's rule for every `k`.
proof fn lemma_pascal(n: nat, k: int)
    requires
        n >= 1,
    ensures
        binom(n, k) == binom((n - 1) as nat, k - 1) + binom((n - 1) as nat, k),
{
}

/// Absorption: `k C(n, k) = n C(n - 1, k - 1)`.
proof fn lemma_absorb(n: nat, k: int)
    requires
        n >= 1,
    ensures
        k * binom(n, k) == n * binom((n - 1) as nat, k - 1),
    decreases n,
{
    if n == 1 {
        if k == 1 {
            lemma_pascal(1, 1);
        } else if k == 0 {
            assert(k * binom(n, k) == 0) by (nonlinear_arith)
                requires
                    k == 0,
            ;
        } else {
            assert(binom(n, k) == 0);
            assert(k * binom(n, k) == 0) by (nonlinear_arith)
                requires
                    binom(n, k) == 0,
            ;
        }
    } else {
        let n1 = (n - 1) as nat;
        let n2 = (n - 2) as nat;
        lemma_pascal(n, k);
        lemma_pascal(n1, k - 1);
        lemma_absorb(n1, k - 1);
        lemma_absorb(n1, k);
        let a = binom(n1, k - 1);
        let b = binom(n1, k);
        let c = binom(n2, k - 2);
        let d = binom(n2, k - 1);
        assert(k * binom(n, k) == n * a) by (nonlinear_arith)
            requires
                binom(n, k) == a + b,
                a == c + d,
                (k - 1) * a == n1 * c,
                k * b == n1 * d,
                n1 == n - 1,
        ;
    }
}

/// A prime divides `C(p, k)` for `0 < k < p`.
proof fn lemma_prime_divides_binom(p: nat, k: int)
    requires
        is_prime(p as int),
        0 < k < p,
    ensures
        (binom(p, k) as int) % (p as int) == 0,
{
    lemma_absorb(p, k);
    let m = binom((p - 1) as nat, k - 1) as int;
    lemma_mod_multiples_basic(m, p as int);
    lemma_mul_is_commutative(m, p as int);
    lemma_euclid(p as int, k, binom(p, k) as int);
}

/// `sum_{k <= n} C(n, k) x^k`.
pub open spec fn binom_sum(x: int, n: nat) -> int {
    sum(|k: int| binom(n, k) * pow(x, k as nat), n + 1)
}

/// The binomial theorem: `(x + 1)^n = sum_{k <= n} C(n, k) x^k`.
proof fn lemma_binomial(x: int, n: nat)
    ensures
        pow(x + 1, n) == binom_sum(x, n),
    decreases n,
{
    let fnk = |k: int| binom(n, k) * pow(x, k as nat);
    if n == 0 {
        lemma_pow0(x);
        lemma_pow0(x + 1);
        assert(binom(0, 0) == 1);
        assert(sum(fnk, 1) == sum(fnk, 0) + fnk(0));
        assert(fnk(0) == 1);
    } else {
        let m = (n - 1) as nat;
        lemma_binomial(x, m);
        let fm = |k: int| binom(m, k) * pow(x, k as nat);
        let g1 = |k: int| binom(m, k - 1) * pow(x, k as nat);
        assert forall|k: int| 0 <= k < n + 1 implies #[trigger] fnk(k) == g1(k) + fm(k) by {
            lemma_pascal(n, k);
            lemma_mul_is_distributive_add_other_way(pow(x, k as nat), binom(m, k - 1) as int, binom(m, k) as int);
        }
        lemma_sum_ext(fnk, |k: int| g1(k) + fm(k), n + 1);
        lemma_sum_add(g1, fm, n + 1);
        // sum_{k <= n} C(m, k) x^k = binom_sum(x, m), the last term vanishing
        assert(sum(fm, n + 1) == sum(fm, n) + fm(n as int));
        assert(binom(m, n as int) == 0);
        assert(fm(n as int) == 0) by (nonlinear_arith)
            requires
                fm(n as int) == binom(m, n as int) * pow(x, n),
                binom(m, n as int) == 0,
        ;
        assert(sum(fm, n) == binom_sum(x, m));
        // sum_{k <= n} C(m, k - 1) x^k = x binom_sum(x, m)
        lemma_sum_split(g1, 1, n);
        assert(sum(g1, 1) == sum(g1, 0) + g1(0));
        assert(binom(m, -1) == 0);
        lemma_pow0(x);
        assert(g1(0) == 0 * 1);
        assert forall|i: int| 0 <= i < n implies #[trigger] g1(1 + i) == x * fm(i) by {
            reveal(pow);
            assert(pow(x, (1 + i) as nat) == x * pow(x, i as nat));
            assert(binom(m, 1 + i - 1) * (x * pow(x, i as nat)) == x * (binom(m, i) * pow(x, i as nat)))
                by (nonlinear_arith);
        }
        lemma_sum_ext(|i: int| g1(1 + i), |k: int| x * fm(k), n);
        lemma_sum_scale(fm, x, n);
        reveal(pow);
        assert(pow(x + 1, n) == (x + 1) * pow(x + 1, m));
        assert((x + 1) * binom_sum(x, m) == x * binom_sum(x, m) + binom_sum(x, m)) by (nonlinear_arith);
        assert(1 + n == n + 1);
    }
}

/// The freshman's dream modulo a prime: `(x + 1)^p = x^p + 1` modulo `p`.
proof fn lemma_freshman(p: nat, x: int)
    requires
        is_prime(p as int),
    ensures
        pow(x + 1, p) % (p as int) == (pow(x, p) + 1) % (p as int),
{
    let pp = p as int;
    lemma_binomial(x, p);
    let f = |k: int| binom(p, k) * pow(x, k as nat);
    let g = |k: int| if k == 0 { 1 } else if k == p { pow(x, p) } else { 0 };
    assert forall|k: int| 0 <= k < p + 1 implies #[trigger] f(k) % pp == g(k) % pp by {
        if k == 0 {
            lemma_pow0(x);
            assert(binom(p, 0) == 1);
            assert(f(0) == 1);
        } else if k == p {
            lemma_pascal(p, p as int);
            assert(binom(p, p as int) == 1) by {
                assert(binom((p - 1) as nat, p as int) == 0);
                lemma_binom_diag((p - 1) as nat);
            }
            assert(f(k) == pow(x, p));
        } else {
            lemma_prime_divides_binom(p, k);
            lemma_mul_mod_noop_left(binom(p, k) as int, pow(x, k as nat), pp);
            assert(((binom(p, k) as int) % pp) * pow(x, k as nat) == 0 * pow(x, k as nat));
            assert(g(k) == 0);
        }
    }
    lemma_sum_mod(f, g, p + 1, pp);
    assert(sum(g, p + 1) == sum(g, p) + g(p as int));
    assert forall|k: int| 0 <= k < p && k != 0 implies #[trigger] g(k) == 0 by {}
    crate::arith::lemma_sum_single(g, p, 0);
}

/// `C(n, n) = 1`.
proof fn lemma_binom_diag(n: nat)
    ensures
        binom(n, n as int) == 1,
    decreases n,
{
    if n > 0 {
        lemma_binom_diag((n - 1) as nat);
        lemma_pascal(n, n as int);
        assert(binom((n - 1) as nat, n as int) == 0);
    }
}

/// Fermat's little theorem on the naturals: `x^p = x` modulo a prime `p`.
proof fn lemma_fermat_nat(p: nat, x: nat)
    requires
        is_prime(p as int),
    ensures
        pow(x as int, p) % (p as int) == (x as int) % (p as int),
    decreases x,
{
    let pp = p as int;
    if x == 0 {
        lemma0_pow(p);
    } else {
        let y = (x - 1) as nat;
        lemma_fermat_nat(p, y);
        lemma_freshman(p, y as int);
        lemma_add_mod_noop(pow(y as int, p), 1, pp);
        lemma_add_mod_noop(y as int, 1, pp);
    }
}

/// Fermat's inverse: for a prime `p` and `x` not divisible by `p`,
/// `pow_mod(x, p - 2, p)` is the inverse of `x` modulo `p`.
pub proof fn pow_mod_inverts_prime(p: int, x: int)
    requires
        is_prime(p),
        x % p != 0,
    ensures
        (pow_mod_spec(x, p - 2, p) * (x % p)) % p == 1,
{
    let y = x % p;
    assert(0 < y < p);
    lemma_fermat_nat(p as nat, y as nat);
    lemma_small_mod(y as nat, p as nat);
    if p == 2 {
        assert(y == 1);
        assert(pow_mod_spec(x, p - 2, p) == 1);
    } else {
        let e = (p - 2) as nat;
        let e1 = (p - 1) as nat;
        assert(pow_mod_spec(x, p - 2, p) == pow(y, e) % p);
        lemma_pow_adds(y, e, 1);
        lemma_pow_adds(y, e1, 1);
        lemma_pow1(y);
        assert(e + 1 == e1 && e1 + 1 == p as nat);
        let w = pow(y, e1);
        // y (y^(p-1) - 1) = y^p - y = 0 (mod p)
        assert(y * (w - 1) == pow(y, p as nat) - y) by (nonlinear_arith)
            requires
                pow(y, p as nat) == w * y,
        ;
        lemma_sub_mod_noop(pow(y, p as nat), y, p);
        assert(pow(y, p as nat) % p == y);
        assert((pow(y, p as nat) % p) - (y % p) == 0);
        assert((pow(y, p as nat) - y) % p == 0);
        assert((y * (w - 1)) % p == 0);
        lemma_euclid(p, y, w - 1);
        lemma_add_mod_noop(w - 1, 1, p);
        lemma_small_mod(1, p as nat);
        assert(w % p == 1);
        lemma_mul_mod_noop_left(pow(y, e), y, p);
    }
}

} // verus!
