//! The LWE side of bootstrapping: the test polynomial that blind rotation turns,
//! the key under which the extracted sample decrypts, LWE decryption with a
//! message at `q / 4`, and the proof that bootstrapping gives the message back.
use vstd::prelude::*;
use vstd::arithmetic::div_mod::*;
use crate::arith::{abs, sum, rem_euclid, rem_euclid_wide, lemma_mod_add_left};
use crate::params::rgsw::{N, Q, L};
use crate::rgsw::{Poly, is_rgsw_keypair, is_rgsw_encryption};
use crate::rgsw::poly::PolyMat;
use super::{prot, shift_of, wraps_odd, blind_rotate_spec};
use super::correctness::{
    extracted_key, lwe_phase, rcentered, rot_total, key_encrypts, bootstrap_extracts,
};

verus! {

/// The test polynomial (lookup table) of bootstrapping: `3q/4` at the
/// coefficients `N/4 ..= 3N/4`, zero elsewhere.
pub open spec fn test_poly_spec() -> Seq<i64> {
    Seq::new(
        N as nat,
        |i: int| if i < N / 4 || i > 3 * N / 4 { 0i64 } else { (Q - Q / 4) as i64 },
    )
}

/// Builds the test polynomial.
pub fn test_polynomial() -> (p: Poly)
    ensures
        p.coefs@ == test_poly_spec(),
{
    let q_4 = Q / 4;
    let mut p = Poly::zero();
    let mut i: usize = 0;
    while i < N
        invariant
            i <= N,
            q_4 == Q / 4,
            forall|k: int| 0 <= k < i ==> #[trigger] p.coefs@[k] == test_poly_spec()[k],
            forall|k: int| i <= k < N ==> #[trigger] p.coefs@[k] == 0,
        decreases N - i,
    {
        if i < N / 4 || i > 3 * N / 4 {
            p.coefs[i] = 0;
        } else {
            p.coefs[i] = rem_euclid(Q - q_4, Q);
        }
        i += 1;
    }
    assert(p.coefs@ =~= test_poly_spec());
    p
}

/// The message bit that an LWE phase `x` in `[0, q)` decodes to: `0` when `x` is
/// nearer to `0` than to `q / 4`, and `1` otherwise.
pub open spec fn lwe_decode(x: int) -> int {
    let d = if x < Q - x { x } else { Q - x };
    if d < abs(x - Q / 4) { 0 } else { 1 }
}

/// The LWE key under which the sample extracted from an accumulator decrypts,
/// from the first entry `v_0` of the RGSW secret.
pub fn extracted_lwe_key(v0: &Poly) -> (key: Vec<i64>)
    ensures
        key@.len() == N,
        forall|i: int| 0 <= i < N ==> #[trigger] key@[i] as int == extracted_key(v0.coefs@)[i],
{
    let mut key: Vec<i64> = Vec::new();
    let r0 = rem_euclid(v0.coefs[0], Q);
    let k0 = if r0 == 0 { 0 } else { Q - r0 };
    proof {
        let x = v0.coefs@[0] as int;
        let q = Q as int;
        lemma_fundamental_div_mod(x, q);
        if r0 == 0 {
            lemma_mod_multiples_vanish(-(x / q), 0, q);
            assert(-x == q * (-(x / q)) + 0);
        } else {
            assert(-x == q * (-(x / q) - 1) + (q - r0));
            lemma_fundamental_div_mod_converse(-x, q, -(x / q) - 1, q - r0);
        }
    }
    key.push(k0);
    let mut i: usize = 1;
    while i < N
        invariant
            1 <= i <= N,
            key@.len() == i,
            forall|k: int| 0 <= k < i ==> #[trigger] key@[k] as int == extracted_key(v0.coefs@)[k],
        decreases N - i,
    {
        key.push(rem_euclid(v0.coefs[N - i], Q));
        i += 1;
    }
    key
}

/// The LWE phase `b - sum_i a_i key_i` of the sample `(a, b)` under `key`,
/// reduced modulo `q`.
pub fn lwe_phase_mod_q(a: &[i64], b: i64, key: &[i64]) -> (x: i64)
    requires
        a@.len() == N,
        key@.len() == N,
    ensures
        x == lwe_phase(a@, b as int, Seq::new(N as nat, |i: int| key@[i] as int)) % (Q as int),
        0 <= x < Q,
{
    let ghost ks = Seq::new(N as nat, |i: int| key@[i] as int);
    let ghost f = |i: int| a@[i] * ks[i];
    let q: i128 = Q as i128;
    let mut acc: i128 = 0;
    let mut i: usize = 0;
    while i < N
        invariant
            i <= N,
            a@.len() == N,
            key@.len() == N,
            q == Q,
            ks == Seq::new(N as nat, |i: int| key@[i] as int),
            f == (|i: int| a@[i] * ks[i]),
            0 <= acc < q,
            acc as int == sum(f, i as nat) % (Q as int),
        decreases N - i,
    {
        let x = a[i] as i128;
        let y = key[i] as i128;
        assert(-0x4000_0000_0000_0000_0000_0000_0000_0000 <= x * y <= 0x4000_0000_0000_0000_0000_0000_0000_0000) by (nonlinear_arith)
            requires
                i64::MIN <= x <= i64::MAX,
                i64::MIN <= y <= i64::MAX,
        ;
        proof {
            lemma_mod_add_left(sum(f, i as nat), f(i as int), Q as int);
            assert(sum(f, (i + 1) as nat) == sum(f, i as nat) + f(i as int));
        }
        acc = rem_euclid_wide(acc + x * y, q);
        i += 1;
    }
    let phase = rem_euclid_wide(b as i128 - acc, q);
    proof {
        lemma_sub_mod_noop(b as int, sum(f, N as nat), Q as int);
        lemma_mod_twice(b as int, Q as int);
        lemma_sub_mod_noop(b as int, (sum(f, N as nat) % (Q as int)), Q as int);
        lemma_mod_twice(sum(f, N as nat), Q as int);
        assert(sum(|i: int| a@[i] * ks[i], N as nat) == sum(f, N as nat));
    }
    phase as i64
}

/// Decodes an LWE phase `x` in `[0, q)` to the bit whose code, `0` or `q / 4`, is
/// nearer.
pub fn lwe_decode_value(x: i64) -> (m: i64)
    requires
        0 <= x < Q,
    ensures
        m == lwe_decode(x as int),
{
    let d = if x < Q - x { x } else { Q - x };
    let dq = if x - Q / 4 < 0 { Q / 4 - x } else { x - Q / 4 };
    if d < dq { 0 } else { 1 }
}

/// Decrypts the LWE sample `(a, b)` under `key`: the phase `b - sum_i a_i key_i`
/// reduced modulo `q`, decoded around `q / 4`.
pub fn lwe_decrypt(a: &[i64], b: i64, key: &[i64]) -> (m: i64)
    requires
        a@.len() == N,
        key@.len() == N,
    ensures
        m == lwe_decode(lwe_phase(a@, b as int, Seq::new(N as nat, |i: int| key@[i] as int)) % (Q as int)),
{
    let x = lwe_phase_mod_q(a, b, key);
    lwe_decode_value(x)
}

/// Coefficient `0` of the test polynomial turned by `X^phi`: `q/4` when
/// `phi mod 2N` lies in `N/4 ..= 3N/4`, `3q/4` when it lies in
/// `N + N/4 ..= N + 3N/4`, and `0` otherwise.
pub proof fn test_rotation_constant(phi: int)
    ensures
        prot(test_poly_spec(), phi)[0] as int == ({
            let k = phi % (2 * N as int);
            if 4 <= k <= 12 {
                Q / 4
            } else if 20 <= k <= 28 {
                Q - Q / 4
            } else {
                0
            }
        }),
{
    let k = shift_of(phi);
    let p = test_poly_spec();
    let q = Q as int;
    assert(0 <= k < 32);
    let i = (0 - k) % (N as int);
    if k == 0 {
        assert(i == 0);
    } else if k < 16 {
        assert(i == 16 - k);
        assert(wraps_odd(i, phi));
    } else if k == 16 {
        assert(i == 0);
    } else {
        assert(i == 32 - k);
        assert(!wraps_odd(i, phi));
    }
    assert((-(Q - Q / 4)) % q == Q / 4);
    assert((0int) % q == 0);
    assert(((Q - Q / 4) as int) % q == Q - Q / 4);
}

/// An LWE phase within `q/8` of `0`, `q/4` or `3q/4` decodes to the bit whose
/// code is nearest: `1` for `q/4`, `0` for the others.
proof fn lemma_decode_noisy(mu: int, e: int)
    requires
        mu == 0 || mu == Q / 4 || mu == Q - Q / 4,
        abs(e) < Q / 8,
    ensures
        lwe_decode((mu + e) % (Q as int)) == if mu == Q / 4 { 1int } else { 0 },
{
    let q = Q as int;
    let y = mu + e;
    if y < 0 {
        lemma_mod_add_multiples_vanish(y, q);
        lemma_small_mod((y + q) as nat, q as nat);
    } else {
        lemma_small_mod(y as nat, q as nat);
    }
}

/// Bootstrapping gives the message back. Take an RGSW key pair, an encryption of
/// the test polynomial, and a bootstrapping key for the LWE secret `sk` over
/// fewer than 59000 coefficients `a`; when the rotation `b - sum_i a_i s_i` is
/// `8m + d` modulo `2N` for a bit `m` and `|d| <= 3` (the LWE phase of the input
/// scaled to `Z_2N`, with message `m` at a quarter), the sample that `bootstrap`
/// extracts decrypts under the extracted key to `m`.
pub proof fn bootstrap_recovers_message(
    v: PolyMat,
    key: PolyMat,
    acc: PolyMat,
    bks: Seq<PolyMat>,
    sk: Seq<int>,
    a: Seq<i64>,
    b: int,
    m: int,
    d: int,
)
    requires
        is_rgsw_keypair(v, key),
        is_rgsw_encryption(key, test_poly_spec(), acc),
        key_encrypts(key, bks, sk, a),
        a.len() < 59000,
        m == 0 || m == 1,
        -3 <= d <= 3,
        (b - rot_total(a, sk, a.len()) - 8 * m - d) % (2 * N as int) == 0,
    ensures
        ({
            let r = blind_rotate_spec(acc, bks, a, b, a.len());
            lwe_decode(
                lwe_phase(r.data[L as int], r.data[r.cols + L][0] as int, extracted_key(v.entry(0, 0)))
                    % (Q as int),
            ) == m
        }),
{
    let q = Q as int;
    let n = a.len();
    bootstrap_extracts(v, key, acc, test_poly_spec(), bks, sk, a, b);
    let r = blind_rotate_spec(acc, bks, a, b, n);
    let phi = b - rot_total(a, sk, n);
    test_rotation_constant(phi);
    let k = phi % 32;
    let w = phi - 8 * m - d;
    lemma_fundamental_div_mod(w, 32);
    lemma_fundamental_div_mod(phi, 32);
    assert(phi == 32 * (w / 32) + 8 * m + d);
    lemma_fundamental_div_mod_converse(phi, 32, if 8 * m + d < 0 { w / 32 - 1 } else { w / 32 }, if 8 * m
        + d < 0 { 8 * m + d + 32 } else { 8 * m + d });
    let mu0 = prot(test_poly_spec(), phi)[0] as int;
    assert(m == 1 ==> mu0 == Q / 4);
    assert(m == 0 ==> mu0 == 0);
    let lp = lwe_phase(r.data[L as int], r.data[r.cols + L][0] as int, extracted_key(v.entry(0, 0)));
    let y = (lp - mu0) % q;
    let e = rcentered(y);
    assert(abs(e) <= 64 + n * 71680);
    assert(abs(e) < Q / 8);
    // lp = mu0 + e (mod q)
    lemma_fundamental_div_mod(lp - mu0, q);
    assert(lp == mu0 + e + q * ((lp - mu0) / q) + (if y > Q / 2 { q } else { 0 }));
    lemma_mod_multiples_vanish((lp - mu0) / q + (if y > Q / 2 { 1int } else { 0 }), mu0 + e, q);
    assert(lp % q == (mu0 + e) % q);
    lemma_decode_noisy(mu0, e);
}

} // verus!
