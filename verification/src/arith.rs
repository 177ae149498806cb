//! Integer helpers shared by both schemes: Euclidean remainders, finite sums and
//! the lemmas about them that the correctness proofs use.
use vstd::prelude::*;
use vstd::arithmetic::div_mod::*;
use vstd::arithmetic::mul::*;
use vstd::arithmetic::power2::*;

verus! {

/// `x mod m` in `[0, m)`, as `i64::rem_euclid` computes it.
pub fn rem_euclid(x: i64, m: i64) -> (r: i64)
    requires
        m > 0,
    ensures
        r == x % m,
        0 <= r < m,
{
    match x.checked_rem_euclid(m) {
        Some(r) => r,
        None => 0,
    }
}

/// `x mod m` in `[0, m)`, as `i128::rem_euclid` computes it.
pub fn rem_euclid_wide(x: i128, m: i128) -> (r: i128)
    requires
        m > 0,
    ensures
        r == x % m,
        0 <= r < m,
{
    match x.checked_rem_euclid(m) {
        Some(r) => r,
        None => 0,
    }
}

/// Absolute value of an integer.
pub open spec fn abs(x: int) -> int {
    if x < 0 { -x } else { x }
}

/// `f(0) + f(1) + ... + f(n - 1)`.
pub open spec fn sum(f: spec_fn(int) -> int, n: nat) -> int
    decreases n,
{
    if n == 0 { 0 } else { sum(f, (n - 1) as nat) + f(n - 1) }
}

/// Sums of functions that agree below `n` agree.
pub proof fn lemma_sum_ext(f: spec_fn(int) -> int, g: spec_fn(int) -> int, n: nat)
    requires
        forall|k: int| 0 <= k < n ==> #[trigger] f(k) == g(k),
    ensures
        sum(f, n) == sum(g, n),
    decreases n,
{
    if n > 0 {
        lemma_sum_ext(f, g, (n - 1) as nat);
    }
}

/// A sum of pointwise sums is the sum of the two sums.
pub proof fn lemma_sum_add(f: spec_fn(int) -> int, g: spec_fn(int) -> int, n: nat)
    ensures
        sum(|k: int| f(k) + g(k), n) == sum(f, n) + sum(g, n),
    decreases n,
{
    if n > 0 {
        lemma_sum_add(f, g, (n - 1) as nat);
    }
}

/// A constant factor comes out of a sum.
pub proof fn lemma_sum_scale(f: spec_fn(int) -> int, c: int, n: nat)
    ensures
        sum(|k: int| c * f(k), n) == c * sum(f, n),
    decreases n,
{
    if n > 0 {
        lemma_sum_scale(f, c, (n - 1) as nat);
        lemma_mul_is_distributive_add(c, sum(f, (n - 1) as nat), f(n - 1));
    }
}

/// Sums of functions that agree modulo `q` agree modulo `q`.
pub proof fn lemma_sum_mod(f: spec_fn(int) -> int, g: spec_fn(int) -> int, n: nat, q: int)
    requires
        q > 0,
        forall|k: int| 0 <= k < n ==> #[trigger] f(k) % q == g(k) % q,
    ensures
        sum(f, n) % q == sum(g, n) % q,
    decreases n,
{
    if n > 0 {
        let m = (n - 1) as nat;
        lemma_sum_mod(f, g, m, q);
        lemma_add_mod_noop(sum(f, m), f(m as int), q);
        lemma_add_mod_noop(sum(g, m), g(m as int), q);
    }
}

/// A sum of `n` terms of magnitude at most `b` has magnitude at most `n * b`.
pub proof fn lemma_sum_bound(f: spec_fn(int) -> int, n: nat, b: int)
    requires
        forall|k: int| 0 <= k < n ==> abs(#[trigger] f(k)) <= b,
    ensures
        abs(sum(f, n)) <= n * b,
    decreases n,
{
    if n > 0 {
        lemma_sum_bound(f, (n - 1) as nat, b);
        assert(abs(f(n - 1)) <= b);
        assert((n - 1) * b + b == n * b) by (nonlinear_arith);
    } else {
        assert(n * b == 0) by (nonlinear_arith)
            requires
                n == 0,
        ;
    }
}

/// A sum of non-negative terms is non-negative.
pub proof fn lemma_sum_nonneg(f: spec_fn(int) -> int, n: nat)
    requires
        forall|k: int| 0 <= k < n ==> #[trigger] f(k) >= 0,
    ensures
        sum(f, n) >= 0,
    decreases n,
{
    if n > 0 {
        lemma_sum_nonneg(f, (n - 1) as nat);
    }
}

/// Sums are monotone in their terms.
pub proof fn lemma_sum_le(f: spec_fn(int) -> int, g: spec_fn(int) -> int, n: nat)
    requires
        forall|k: int| 0 <= k < n ==> #[trigger] f(k) <= g(k),
    ensures
        sum(f, n) <= sum(g, n),
    decreases n,
{
    if n > 0 {
        lemma_sum_le(f, g, (n - 1) as nat);
    }
}

/// A sum whose terms vanish except at `k0` equals its term at `k0`.
pub proof fn lemma_sum_single(f: spec_fn(int) -> int, n: nat, k0: int)
    requires
        0 <= k0 < n,
        forall|k: int| 0 <= k < n && k != k0 ==> #[trigger] f(k) == 0,
    ensures
        sum(f, n) == f(k0),
    decreases n,
{
    if n - 1 == k0 {
        lemma_sum_zero(f, (n - 1) as nat);
    } else {
        lemma_sum_single(f, (n - 1) as nat, k0);
    }
}

/// A sum of zeros is zero.
pub proof fn lemma_sum_zero(f: spec_fn(int) -> int, n: nat)
    requires
        forall|k: int| 0 <= k < n ==> #[trigger] f(k) == 0,
    ensures
        sum(f, n) == 0,
    decreases n,
{
    if n > 0 {
        lemma_sum_zero(f, (n - 1) as nat);
    }
}

/// The order of a double sum can be exchanged.
pub proof fn lemma_sum_swap(f: spec_fn(int, int) -> int, n: nat, m: nat)
    ensures
        sum(|i: int| sum(|j: int| f(i, j), m), n) == sum(|j: int| sum(|i: int| f(i, j), n), m),
    decreases n,
{
    if n > 0 {
        let n1 = (n - 1) as nat;
        lemma_sum_swap(f, n1, m);
        // sum_j sum_{i<n} f = sum_j (sum_{i<n1} f + f(n1, j))
        let lhs = |i: int| sum(|j: int| f(i, j), m);
        let g = |j: int| sum(|i: int| f(i, j), n);
        let g1 = |j: int| sum(|i: int| f(i, j), n1);
        let h = |j: int| f(n1 as int, j);
        assert(sum(lhs, n) == sum(lhs, n1) + lhs(n1 as int));
        assert(lhs(n1 as int) == sum(h, m)) by {
            lemma_sum_ext(|j: int| f(n1 as int, j), h, m);
        }
        assert forall|j: int| 0 <= j < m implies #[trigger] g(j) == g1(j) + h(j) by {}
        lemma_sum_ext(g, |k: int| g1(k) + h(k), m);
        lemma_sum_add(g1, h, m);
        assert(sum(g, m) == sum(g1, m) + sum(h, m));
        assert(sum(lhs, n1) == sum(g1, m));
        assert(sum(lhs, n) == sum(g, m));
        lemma_sum_ext(lhs, |i: int| sum(|j: int| f(i, j), m), n);
        lemma_sum_ext(g, |j: int| sum(|i: int| f(i, j), n), m);
    } else {
        lemma_sum_zero(|j: int| sum(|i: int| f(i, j), n), m);
    }
}

/// `|sum f| <= sum |f|`.
pub proof fn lemma_sum_abs(f: spec_fn(int) -> int, n: nat)
    ensures
        abs(sum(f, n)) <= sum(|k: int| abs(f(k)), n),
    decreases n,
{
    if n > 0 {
        lemma_sum_abs(f, (n - 1) as nat);
    }
}

/// `(x mod q) + y` and `x + y` agree modulo `q`.
pub proof fn lemma_mod_add_left(x: int, y: int, q: int)
    requires
        q > 0,
    ensures
        (x % q + y) % q == (x + y) % q,
{
    lemma_add_mod_noop(x, y, q);
    lemma_add_mod_noop(x % q, y, q);
    lemma_mod_twice(x, q);
}

/// The bits of `x` rebuild `x` modulo `2^n`:
/// `sum_{l < n} 2^l ((x / 2^l) mod 2) = x mod 2^n`.
pub proof fn lemma_bits_rebuild(x: int, n: nat)
    requires
        x >= 0,
    ensures
        sum(|l: int| (pow2(l as nat) as int) * ((x / (pow2(l as nat) as int)) % 2), n) == x % (pow2(n) as int),
    decreases n,
{
    if n == 0 {
        lemma2_to64();
    } else {
        let m = (n - 1) as nat;
        lemma_bits_rebuild(x, m);
        lemma_pow2_pos(m);
        lemma_pow2_unfold(n);
        lemma_mod_breakdown(x, pow2(m) as int, 2);
        lemma_mul_is_commutative(pow2(m) as int, 2);
    }
}

/// A sum over `a + b` terms splits into the first `a` and the next `b`.
pub proof fn lemma_sum_split(f: spec_fn(int) -> int, a: nat, b: nat)
    ensures
        sum(f, a + b) == sum(f, a) + sum(|i: int| f(a + i), b),
    decreases b,
{
    if b > 0 {
        lemma_sum_split(f, a, (b - 1) as nat);
        assert(sum(f, a + b) == sum(f, (a + b - 1) as nat) + f(a + b - 1));
    }
}

} // verus!
