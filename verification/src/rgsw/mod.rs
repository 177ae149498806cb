//! The Ring-GSW scheme over `Z_q[X]/(X^N + 1)`: keys, encryption of bits,
//! integers and packed polynomials, decryption, and homomorphic operations.
pub mod poly;
pub mod crt;
pub mod slots;
pub mod ring;
pub mod correctness;
pub mod fermat;

use vstd::prelude::*;
use vstd::arithmetic::power2::*;
use rand::rngs::ThreadRng;
use crate::arith::{abs, rem_euclid};
use crate::params::rgsw::{N, Q, L, M, INT_SCALE_SHIFT};
use crate::FheError;
pub use poly::{Poly, PolyMatrix};
pub use crt::{encode_slots, decode_slots};
use poly::{
    PolyMat, pzero, pconst, padd, pmul, pscale, coefs_within, pm_add, pm_product,
    pm_transpose, product, lemma_rm_index, lemma_rm_flat, lemma_rm_unflat,
};

verus! {

/// An RGSW encryption of a bit or of a small integer: a `2 x 2L` matrix of
/// polynomials.
#[derive(Clone, Debug)]
pub struct RgswBitCiphertext(pub PolyMatrix);

/// An RGSW encryption of a polynomial.
#[derive(Clone, Debug)]
pub struct RgswPolyCiphertext(pub PolyMatrix);

/// `s` is binary and `v = (-s mod q, 1)`, a `2 x 1` matrix.
pub open spec fn is_rgsw_secret(v: PolyMat, s: Seq<i64>) -> bool {
    &&& v.wf()
    &&& v.rows == 2
    &&& v.cols == 1
    &&& s.len() == N
    &&& coefs_within(s, 0, 1)
    &&& v.entry(0, 0) == pscale(s, -1)
    &&& v.entry(1, 0) == pconst(1)
}

/// `a` is an `M x 2` matrix whose rows are `(a_i, a_i s + e_i mod q)` with `a_i`
/// uniform modulo `q` and noise `e_i` in `{-1, 0, 1}`.
pub open spec fn rlwe_relation(a: PolyMat, s: Seq<i64>, e: Seq<Seq<i64>>) -> bool {
    &&& a.wf()
    &&& a.rows == M
    &&& a.cols == 2
    &&& e.len() == M
    &&& forall|i: int| 0 <= i < M ==> coefs_within(#[trigger] a.entry(i, 0), 0, Q - 1)
    &&& forall|i: int| 0 <= i < M ==> coefs_within(#[trigger] e[i], -1, 1)
    &&& forall|i: int| 0 <= i < M ==> #[trigger] a.entry(i, 1) == padd(pmul(a.entry(i, 0), s), e[i])
}

/// `(v, a)` is an RGSW key pair for some binary secret and noise.
pub open spec fn is_rgsw_keypair(v: PolyMat, a: PolyMat) -> bool {
    exists|s: Seq<i64>, e: Seq<Seq<i64>>| is_rgsw_secret(v, s) && #[trigger] rlwe_relation(a, s, e)
}

/// The `2 x 2L` matrix `m G`: entry `(i, i L + j)` is `2^j m`, the others zero.
pub open spec fn pm_gadget(m: Seq<i64>) -> PolyMat {
    PolyMat {
        rows: 2,
        cols: (2 * L) as nat,
        data: Seq::new(
            (4 * L) as nat,
            |x: int|
                {
                    let i = x / (2 * L as int);
                    let c = x % (2 * L as int);
                    if i * L <= c < i * L + L {
                        pmul(pconst(pow2((c - i * L) as nat) as int), m)
                    } else {
                        pzero()
                    }
                },
        ),
    }
}

/// `c = A^T R + m G` for the binary `M x 2L` matrix `r`.
pub open spec fn renc_relation(a: PolyMat, r: PolyMat, m: Seq<i64>, c: PolyMat) -> bool {
    &&& r.wf()
    &&& r.rows == M
    &&& r.cols == 2 * L
    &&& forall|x: int| 0 <= x < r.data.len() ==> coefs_within(#[trigger] r.data[x], 0, 1)
    &&& c == pm_add(pm_product(pm_transpose(a), r, a.rows), pm_gadget(m))
}

/// `c` encrypts the polynomial `m` under `a`.
pub open spec fn is_rgsw_encryption(a: PolyMat, m: Seq<i64>, c: PolyMat) -> bool {
    exists|r: PolyMat| #[trigger] renc_relation(a, r, m, c)
}

/// A public key can be used for encryption: at most `M x 2`, with its entries
/// stored.
pub open spec fn encryptable(a: PolyMat) -> bool {
    &&& a.covers()
    &&& a.rows <= M
    &&& a.cols <= 2
}

/// `sum_{k < n} v[k][0] * c[k][col]`, accumulated modulo `q`.
pub open spec fn rphase(v: PolyMat, c: PolyMat, col: int, n: nat) -> Seq<i64>
    decreases n,
{
    if n == 0 {
        pzero()
    } else {
        padd(rphase(v, c, col, (n - 1) as nat), pmul(v.entry(n - 1, 0), c.data[(n - 1) * c.cols + col]))
    }
}

/// `v^T c` can be formed at column `col`: the entries it reads are stored.
pub open spec fn rdecryptable(v: PolyMat, c: PolyMat, col: int) -> bool {
    &&& v.covers()
    &&& v.rows * v.cols <= usize::MAX
    &&& (v.rows > 0 ==> v.cols >= 1)
    &&& forall|k: int| 0 <= k < v.rows ==> #[trigger] (k * c.cols) + col < c.data.len()
}

/// `q / 2`.
pub open spec fn rhalf_q() -> int {
    Q as int / 2
}

/// The bit that a value `x` in `[0, q)` decodes to: `0` when nearer to `0` than
/// to `q / 2`, `1` otherwise.
pub open spec fn rdecode_bit(x: int) -> int {
    let d = if x < Q - x { x } else { Q - x };
    if d < abs(x - rhalf_q()) { 0 } else { 1 }
}

/// The integer that a value `x` in `[0, q)` decodes to: centred into
/// `(-q/2, q/2]`, divided by `2^INT_SCALE_SHIFT` and rounded, halves away from zero.
pub open spec fn rdecode_int(x: int) -> int {
    let c = if x > rhalf_q() { x - Q } else { x };
    if c >= 0 { (c + 65536) / 131072 } else { -((-c + 65536) / 131072) }
}

/// Bit `l` of `x`: `(x >> l) & 1`.
pub open spec fn bit_of(x: i64, l: int) -> i64 {
    (x >> (l as u64)) & 1
}

/// The bit decomposition `G^-1(c)`: a `2L x 2L` matrix whose entry
/// `(row L + l, col)` has coefficient `d` equal to bit `l` of coefficient `d` of
/// the stored entry `(row, col)` of `c`.
pub open spec fn pm_ginv(c: PolyMat) -> PolyMat {
    PolyMat {
        rows: (2 * L) as nat,
        cols: (2 * L) as nat,
        data: Seq::new(
            (4 * L * L) as nat,
            |x: int|
                {
                    let r = x / (2 * L as int);
                    let col = x % (2 * L as int);
                    Seq::new(
                        N as nat,
                        |d: int| bit_of(c.data[(r / L as int) * c.cols + col][d], r % L as int),
                    )
                },
        ),
    }
}

/// The numeric sizes derived from `L`.
proof fn lemma_sizes()
    ensures
        L == 35,
        2 * L == 70,
        4 * L == 140,
        (2 * L) * (2 * L) == 4900,
        4 * L * L == 4900,
        M * (2 * L) == 280,
{
    assert(L == 35);
    assert((2 * L) * (2 * L) == 4900 && 4 * L * L == 4900) by (nonlinear_arith)
        requires
            L == 35,
    ;
}

/// The key pair built from its drawn parts: the secret `s`, and for each of the
/// `M` rows the polynomial `a_i = a0s[i]` and the noise `e_i = es[i]`. Returns
/// `v = (-s mod q, 1)` and the `M x 2` matrix with rows `(a_i, a_i s + e_i mod q)`.
pub fn keygen_from(s: &Poly, a0s: &[Poly], es: &[Poly]) -> (keys: (PolyMatrix, PolyMatrix))
    requires
        a0s@.len() == M,
        es@.len() == M,
        forall|i: int, k: int|
            0 <= i < M && 0 <= k < N ==> pmul(a0s@[i].coefs@, s.coefs@)[k] + (#[trigger] es@[i].coefs@[k])
                <= i64::MAX,
    ensures
        keys.0@.wf(),
        keys.0.rows == 2,
        keys.0.cols == 1,
        keys.0@.entry(0, 0) == pscale(s.coefs@, -1),
        keys.0@.entry(1, 0) == pconst(1),
        keys.1@.wf(),
        keys.1.rows == M,
        keys.1.cols == 2,
        forall|i: int|
            0 <= i < M ==> #[trigger] keys.1@.entry(i, 0) == a0s@[i].coefs@ && keys.1@.entry(i, 1) == padd(
                pmul(a0s@[i].coefs@, s.coefs@),
                es@[i].coefs@,
            ),
        coefs_within(s.coefs@, 0, 1) && (forall|i: int|
            0 <= i < M ==> coefs_within(#[trigger] a0s@[i].coefs@, 0, Q - 1) && coefs_within(
                es@[i].coefs@,
                -1,
                1,
            )) ==> is_rgsw_keypair(keys.0@, keys.1@),
{
    let mut v = PolyMatrix::zeros(2, 1);
    *v.get_mut(0, 0) = s.scalar_mul(-1);
    *v.get_mut(1, 0) = Poly::from_scalar(1);
    let mut data: Vec<Poly> = Vec::new();
    let mut i: usize = 0;
    while i < M
        invariant
            i <= M,
            a0s@.len() == M,
            es@.len() == M,
            forall|i: int, k: int|
                0 <= i < M && 0 <= k < N ==> pmul(a0s@[i].coefs@, s.coefs@)[k] + (
                #[trigger] es@[i].coefs@[k]) <= i64::MAX,
            data@.len() == 2 * i,
            forall|k: int| 0 <= k < i ==> #[trigger] data@[2 * k] == a0s@[k],
            forall|k: int|
                0 <= k < i ==> #[trigger] data@[2 * k + 1].coefs@ == padd(
                    pmul(a0s@[k].coefs@, s.coefs@),
                    es@[k].coefs@,
                ),
        decreases M - i,
    {
        let prod = a0s[i].mul(s);
        proof {
            assert forall|k: int| 0 <= k < N implies i64::MIN <= #[trigger] prod.coefs@[k]
                + es@[i as int].coefs@[k] <= i64::MAX by {
                assert(prod.coefs@[k] == pmul(a0s@[i as int].coefs@, s.coefs@)[k]);
                assert(pmul(a0s@[i as int].coefs@, s.coefs@)[k] + es@[i as int].coefs@[k] <= i64::MAX);
            }
        }
        let a1 = prod.add(&es[i]);
        data.push(a0s[i]);
        data.push(a1);
        i += 1;
    }
    let ghost dv = data@;
    let a = PolyMatrix { rows: M, cols: 2, data };
    proof {
        assert(a.data@ == dv);
        assert forall|i: int| 0 <= i < M implies #[trigger] a@.entry(i, 0) == a0s@[i].coefs@
            && a@.entry(i, 1) == padd(pmul(a0s@[i].coefs@, s.coefs@), es@[i].coefs@) by {
            assert(dv[2 * i] == a0s@[i]);
            assert(dv[2 * i + 1].coefs@ == padd(pmul(a0s@[i].coefs@, s.coefs@), es@[i].coefs@));
            assert(i * 2 == 2 * i);
            assert(a@.data[i * 2 + 0] == dv[i * 2 + 0].coefs@);
            assert(a@.data[i * 2 + 1] == dv[i * 2 + 1].coefs@);
        }
        if coefs_within(s.coefs@, 0, 1) && (forall|i: int|
            0 <= i < M ==> coefs_within(#[trigger] a0s@[i].coefs@, 0, Q - 1) && coefs_within(
                es@[i].coefs@,
                -1,
                1,
            )) {
            let e = Seq::new(M as nat, |i: int| es@[i].coefs@);
            assert(is_rgsw_secret(v@, s.coefs@));
            assert(rlwe_relation(a@, s.coefs@, e));
        }
    }
    (v, a)
}

/// Generates a key pair: a binary secret `s`, and for each of the `M` rows a
/// uniform `a_i` and noise `e_i`; returns `v = (-s, 1)` and the rows
/// `(a_i, a_i s + e_i)`.
pub fn keygen(rng: &mut ThreadRng) -> (keys: (PolyMatrix, PolyMatrix))
    ensures
        is_rgsw_keypair(keys.0@, keys.1@),
{
    let s = Poly::rand_binary(rng);
    let mut a0s: Vec<Poly> = Vec::new();
    let mut es: Vec<Poly> = Vec::new();
    let mut i: usize = 0;
    while i < M
        invariant
            i <= M,
            a0s@.len() == i,
            es@.len() == i,
            forall|k: int| 0 <= k < i ==> coefs_within(#[trigger] a0s@[k].coefs@, 0, Q - 1),
            forall|k: int| 0 <= k < i ==> coefs_within(#[trigger] es@[k].coefs@, -1, 1),
        decreases M - i,
    {
        a0s.push(Poly::rand_mod_q(rng));
        es.push(Poly::rand_noise(rng));
        i += 1;
    }
    proof {
        assert forall|i: int, k: int| 0 <= i < M && 0 <= k < N implies pmul(a0s@[i].coefs@, s.coefs@)[k] + (
        #[trigger] es@[i].coefs@[k]) <= i64::MAX by {
            assert(coefs_within(es@[i].coefs@, -1, 1));
        }
    }
    keygen_from(&s, &a0s, &es)
}

/// The `2 x 2L` matrix `m G`.
fn gadget_times(m: &Poly) -> (g: PolyMatrix)
    ensures
        g@ == pm_gadget(m.coefs@),
        g.rows == 2,
        g.cols == 2 * L,
        g.data@.len() == 4 * L,
{
    proof {
        lemma_sizes();
    }
    let mut g = PolyMatrix::zeros(2, 2 * L);
    let mut i: usize = 0;
    while i < 2
        invariant
            i <= 2,
            g.rows == 2,
            g.cols == 2 * L,
            g.data@.len() == 4 * L,
            forall|x: int|
                0 <= x < 4 * L ==> (#[trigger] g.data@[x]).coefs@ == if x / (2 * L as int) < i {
                    pm_gadget(m.coefs@).data[x]
                } else {
                    pzero()
                },
        decreases 2 - i,
    {
        let mut p: i64 = 1;
        let mut j: usize = 0;
        proof {
            lemma2_to64();
        }
        while j < L
            invariant
                i < 2,
                j <= L,
                j < L ==> p == pow2(j as nat),
                g.rows == 2,
                g.cols == 2 * L,
                g.data@.len() == 4 * L,
                forall|x: int|
                    0 <= x < 4 * L ==> (#[trigger] g.data@[x]).coefs@ == if x / (2 * L as int) < i || (
                    x / (2 * L as int) == i && x % (2 * L as int) < i * L + j) {
                        pm_gadget(m.coefs@).data[x]
                    } else {
                        pzero()
                    },
            decreases L - j,
        {
            let e = Poly::from_scalar(p).mul(m);
            proof {
                lemma_rm_index(2, 2 * L as int, i as int, (i * L + j) as int);
                lemma_rm_unflat(i as int, (i * L + j) as int, 2 * L as int);
            }
            *g.get_mut(i, i * L + j) = e;
            proof {
                assert forall|x: int| 0 <= x < 4 * L implies (#[trigger] g.data@[x]).coefs@ == if x / (
                2 * L as int) < i || (x / (2 * L as int) == i && x % (2 * L as int) < i * L + j + 1) {
                    pm_gadget(m.coefs@).data[x]
                } else {
                    pzero()
                } by {
                    lemma_rm_flat(x, 2, 2 * L as int);
                    let r = x / (2 * L as int);
                    let c = x % (2 * L as int);
                    if r == i && c >= i * L + j + 1 {
                        assert(c >= i * L + L || !(r * L <= c < r * L + L) || c > i * L + j);
                    }
                }
                lemma_pow2_unfold((j + 1) as nat);
                lemma2_to64_rest();
                if j + 1 < L {
                    lemma_pow2_strictly_increases((j + 1) as nat, 35);
                }
            }
            if j + 1 < L {
                p = p * 2;
            }
            j += 1;
        }
        i += 1;
    }
    assert(g@.data =~= pm_gadget(m.coefs@).data);
    g
}

/// Encrypts the polynomial `m` with the given `M x 2L` randomness `r`:
/// `C = A^T R + m G`, each entry reduced modulo `q`.
pub fn encrypt_with_randomness(a: &PolyMatrix, r: &PolyMatrix, m: &Poly) -> (c: PolyMatrix)
    requires
        encryptable(a@),
        r@.wf(),
        r.rows == M,
        r.cols == 2 * L,
    ensures
        c@ == pm_add(pm_product(pm_transpose(a@), r@, a.rows as nat), pm_gadget(m.coefs@)),
        c@.wf(),
        c.rows == a.cols,
        c.cols == 2 * L,
        (forall|x: int| 0 <= x < r@.data.len() ==> coefs_within(#[trigger] r@.data[x], 0, 1)) ==> renc_relation(
            a@,
            r@,
            m.coefs@,
            c@,
        ),
{
    let m_g = gadget_times(m);
    proof {
        lemma_sizes();
        assert(a.rows * a.cols <= 2 * M) by (nonlinear_arith)
            requires
                a.rows <= M,
                a.cols <= 2,
        ;
    }
    let a_t = a.transpose();
    let res = product(&a_t, r, a_t.cols);
    proof {
        assert(res.cols == 2 * L);
        assert(res.rows == a.cols);
        assert(res.data@.len() == a.cols * (2 * L));
        assert(res.data@.len() <= 4 * L) by (nonlinear_arith)
            requires
                res.data@.len() == a.cols * (2 * L),
                a.cols <= 2,
        ;
        assert(m_g.data@.len() == 4 * L);
        assert forall|x: int, k: int| 0 <= x < res@.data.len() && 0 <= k < N implies i64::MIN
            <= #[trigger] res.data@[x].coefs@[k] + m_g.data@[x].coefs@[k] <= i64::MAX by {
            lemma_rm_flat(x, a.cols as int, 2 * L as int);
            assert(res@.data[x] == poly::pm_dot(a_t@, r@, x / (2 * L as int), x % (2 * L as int), a.rows as nat));
            poly::lemma_pm_dot_reduced(a_t@, r@, x / (2 * L as int), x % (2 * L as int), a.rows as nat);
            assert(x < 4 * L);
            assert(m_g@.data[x] == pm_gadget(m.coefs@).data[x]);
            lemma_gadget_reduced(m.coefs@, x);
        }
    }
    res.add(&m_g)
}

/// Encrypts the polynomial `m` as `A^T R + m G` with a fresh random binary
/// `M x 2L` matrix `R`.
fn core_encrypt(a: &PolyMatrix, m: &Poly, rng: &mut ThreadRng) -> (c: PolyMatrix)
    requires
        encryptable(a@),
    ensures
        is_rgsw_encryption(a@, m.coefs@, c@),
        c@.wf(),
        c.rows == a.cols,
        c.cols == 2 * L,
{
    let mut r_data: Vec<Poly> = Vec::new();
    while r_data.len() < M * (2 * L)
        invariant
            r_data@.len() <= M * (2 * L),
            forall|x: int| 0 <= x < r_data@.len() ==> coefs_within(#[trigger] r_data@[x].coefs@, 0, 1),
        decreases M * (2 * L) - r_data@.len(),
    {
        r_data.push(Poly::rand_binary(rng));
    }
    let r = PolyMatrix { rows: M, cols: 2 * L, data: r_data };
    proof {
        lemma_sizes();
    }
    let c = encrypt_with_randomness(a, &r, m);
    proof {
        assert(renc_relation(a@, r@, m.coefs@, c@));
    }
    c
}

/// The entries of `m G` have coefficients in `[0, q)`.
proof fn lemma_gadget_reduced(m: Seq<i64>, x: int)
    requires
        0 <= x < 4 * L,
    ensures
        coefs_within(pm_gadget(m).data[x], 0, Q - 1),
{
}

/// Encrypts a bit; a message other than `0` or `1` is refused before anything is
/// drawn.
pub fn encrypt(a: &PolyMatrix, m: i64, rng: &mut ThreadRng) -> (res: Result<RgswBitCiphertext, FheError>)
    requires
        m == 0 || m == 1 ==> encryptable(a@),
    ensures
        match res {
            Ok(c) => (m == 0 || m == 1) && is_rgsw_encryption(a@, pconst(m as int), c.0@)
                && c.0@.wf() && c.0.rows == a.cols && c.0.cols == 2 * L,
            Err(e) => !(m == 0 || m == 1) && e == (FheError::InvalidMessage {
                value: m,
                expected: "0 or 1",
            }) && *final(rng) == *old(rng),
        },
{
    if m != 0 && m != 1 {
        return Err(FheError::InvalidMessage { value: m, expected: "0 or 1" });
    }
    Ok(RgswBitCiphertext(core_encrypt(a, &Poly::from_scalar(m), rng)))
}

/// Encrypts a small integer `m` with `|m| < 2^INT_SCALE_SHIFT`; a larger one is
/// refused before anything is drawn.
pub fn encrypt_integer(a: &PolyMatrix, m: i64, rng: &mut ThreadRng) -> (res: Result<
    RgswBitCiphertext,
    FheError,
>)
    requires
        m > i64::MIN,
        abs(m as int) < 131072 ==> encryptable(a@),
    ensures
        match res {
            Ok(c) => abs(m as int) < 131072 && is_rgsw_encryption(a@, pconst(m as int), c.0@)
                && c.0@.wf() && c.0.rows == a.cols && c.0.cols == 2 * L,
            Err(e) => abs(m as int) >= 131072 && e == (FheError::ValueOutOfRange {
                value: m,
                max_abs: 131072,
            }) && *final(rng) == *old(rng),
        },
{
    let max_val: i64 = 131072;
    let m_abs = if m < 0 { -m } else { m };
    if m_abs >= max_val {
        return Err(FheError::ValueOutOfRange { value: m, max_abs: max_val });
    }
    Ok(RgswBitCiphertext(core_encrypt(a, &Poly::from_scalar(m), rng)))
}

/// Encrypts a polynomial (for instance `N` packed bits).
pub fn encrypt_poly(a: &PolyMatrix, m: &Poly, rng: &mut ThreadRng) -> (c: RgswPolyCiphertext)
    requires
        encryptable(a@),
    ensures
        is_rgsw_encryption(a@, m.coefs@, c.0@),
        c.0@.wf(),
        c.0.rows == a.cols,
        c.0.cols == 2 * L,
{
    RgswPolyCiphertext(core_encrypt(a, m, rng))
}

/// Encrypts a polynomial of small integers (for instance CRT slots).
pub fn encrypt_integer_poly(a: &PolyMatrix, m: &Poly, rng: &mut ThreadRng) -> (c: RgswBitCiphertext)
    requires
        encryptable(a@),
    ensures
        is_rgsw_encryption(a@, m.coefs@, c.0@),
        c.0@.wf(),
        c.0.rows == a.cols,
        c.0.cols == 2 * L,
{
    RgswBitCiphertext(core_encrypt(a, m, rng))
}

/// `v^T c` at column `col`: `sum_k v[k][0] c[k][col]` modulo `q`.
fn core_decrypt(v: &PolyMatrix, c: &PolyMatrix, col: usize) -> (p: Poly)
    requires
        rdecryptable(v@, c@, col as int),
    ensures
        p.coefs@ == rphase(v@, c@, col as int, v.rows as nat),
        coefs_within(p.coefs@, 0, Q - 1),
{
    let v_t = v.transpose();
    let mut res = Poly::zero();
    let mut k: usize = 0;
    while k < v_t.cols
        invariant
            rdecryptable(v@, c@, col as int),
            v_t@ == pm_transpose(v@),
            v_t.cols == v.rows,
            v_t.rows == v.cols,
            v_t.data@.len() == v.rows * v.cols,
            k <= v.rows,
            res.coefs@ == rphase(v@, c@, col as int, k as nat),
            coefs_within(res.coefs@, 0, Q - 1),
        decreases v.rows - k,
    {
        proof {
            assert(k * c.cols + col < c.data@.len());
            assert(v.cols >= 1);
            lemma_rm_index(v.rows as int, v.cols as int, k as int, 0);
            lemma_rm_unflat(0, k as int, v.rows as int);
            assert(k < v.rows * v.cols) by (nonlinear_arith)
                requires
                    k < v.rows,
                    v.cols >= 1,
            ;
        }
        let x = v_t.get(0, k);
        let y = c.get(k, col);
        let t = x.mul(y);
        proof {
            assert(*x == v_t.data@[k as int]);
            assert(v_t@.data[k as int] == x.coefs@);
            assert(pm_transpose(v@).data[k as int] == v@.entry((k as int) % (v.rows as int), (k as int) / (v.rows as int)));
            assert(x.coefs@ == v@.entry(k as int, 0));
            assert(y.coefs@ == c@.data[k * c.cols + col]);
            assert forall|i: int| 0 <= i < N implies 0 <= #[trigger] t.coefs@[i] < Q by {
                assert(t.coefs@[i] == pmul(x.coefs@, y.coefs@)[i]);
            }
        }
        let ghost prev = res.coefs@;
        res = res.add(&t);
        proof {
            assert forall|i: int| 0 <= i < N implies 0 <= #[trigger] res.coefs@[i] < Q by {
                assert(res.coefs@[i] == padd(prev, t.coefs@)[i]);
            }
        }
        k += 1;
    }
    res
}

/// The bit a value in `[0, q)` decodes to.
fn decode_bit_value(val: i64) -> (b: i64)
    requires
        0 <= val < Q,
    ensures
        b == rdecode_bit(val as int),
{
    let d = if val < Q - val { val } else { Q - val };
    let dh = if val - Q / 2 < 0 { Q / 2 - val } else { val - Q / 2 };
    if d < dh { 0 } else { 1 }
}

/// The integer a value in `[0, q)` decodes to.
fn decode_int_value(val: i64) -> (m: i64)
    requires
        0 <= val < Q,
    ensures
        m == rdecode_int(val as int),
{
    let centered = if val > Q / 2 { val - Q } else { val };
    if centered >= 0 {
        (centered + 65536) / 131072
    } else {
        -((-centered + 65536) / 131072)
    }
}

/// Decrypts a bit: the constant coefficient of `v^T C` at column `2L - 1` decodes
/// to `0` when nearer to `0` than to `q / 2`, and to `1` otherwise.
pub fn decrypt(v: &PolyMatrix, c: &RgswBitCiphertext) -> (m: i64)
    requires
        rdecryptable(v@, c.0@, 2 * L - 1),
    ensures
        m == rdecode_bit(rphase(v@, c.0@, 2 * L - 1, v.rows as nat)[0] as int),
{
    let p = core_decrypt(v, &c.0, 2 * L - 1);
    let val = rem_euclid(p.coefs[0], Q);
    decode_bit_value(val)
}

/// Decrypts a small integer: the constant coefficient of `v^T C` at column
/// `L + INT_SCALE_SHIFT`, centred and divided by `2^INT_SCALE_SHIFT` with rounding.
pub fn decrypt_integer(v: &PolyMatrix, c: &RgswBitCiphertext) -> (m: i64)
    requires
        rdecryptable(v@, c.0@, (L + INT_SCALE_SHIFT) as int),
    ensures
        m == rdecode_int(rphase(v@, c.0@, (L + INT_SCALE_SHIFT) as int, v.rows as nat)[0] as int),
{
    let p = core_decrypt(v, &c.0, L + INT_SCALE_SHIFT);
    let val = rem_euclid(p.coefs[0], Q);
    decode_int_value(val)
}

/// Decrypts a packed polynomial: each coefficient of `v^T C` at column `2L - 1`
/// decodes to a bit.
pub fn decrypt_poly(v: &PolyMatrix, c: &RgswPolyCiphertext) -> (m: Poly)
    requires
        rdecryptable(v@, c.0@, 2 * L - 1),
    ensures
        forall|k: int|
            0 <= k < N ==> #[trigger] m.coefs@[k] == rdecode_bit(
                rphase(v@, c.0@, 2 * L - 1, v.rows as nat)[k] as int,
            ),
{
    let p = core_decrypt(v, &c.0, 2 * L - 1);
    let mut res = Poly::zero();
    let mut i: usize = 0;
    while i < N
        invariant
            i <= N,
            p.coefs@ == rphase(v@, c.0@, 2 * L - 1, v.rows as nat),
            coefs_within(p.coefs@, 0, Q - 1),
            forall|k: int| 0 <= k < i ==> #[trigger] res.coefs@[k] == rdecode_bit(p.coefs@[k] as int),
        decreases N - i,
    {
        let val = rem_euclid(p.coefs[i], Q);
        res.coefs[i] = decode_bit_value(val);
        i += 1;
    }
    res
}

/// Decrypts a polynomial of small integers: each coefficient of `v^T C` at column
/// `L + INT_SCALE_SHIFT` decodes to an integer.
pub fn decrypt_integer_poly(v: &PolyMatrix, c: &RgswBitCiphertext) -> (m: Poly)
    requires
        rdecryptable(v@, c.0@, (L + INT_SCALE_SHIFT) as int),
    ensures
        forall|k: int|
            0 <= k < N ==> #[trigger] m.coefs@[k] == rdecode_int(
                rphase(v@, c.0@, (L + INT_SCALE_SHIFT) as int, v.rows as nat)[k] as int,
            ),
{
    let p = core_decrypt(v, &c.0, L + INT_SCALE_SHIFT);
    let mut res = Poly::zero();
    let mut i: usize = 0;
    while i < N
        invariant
            i <= N,
            p.coefs@ == rphase(v@, c.0@, (L + INT_SCALE_SHIFT) as int, v.rows as nat),
            coefs_within(p.coefs@, 0, Q - 1),
            forall|k: int| 0 <= k < i ==> #[trigger] res.coefs@[k] == rdecode_int(p.coefs@[k] as int),
        decreases N - i,
    {
        let val = rem_euclid(p.coefs[i], Q);
        res.coefs[i] = decode_int_value(val);
        i += 1;
    }
    res
}

/// The bit decomposition `G^-1(c)` of the first `2L` columns of the two first
/// rows: entry `(row L + l, col)` holds bit `l` of each coefficient of entry
/// `(row, col)`.
pub fn g_inverse(c: &PolyMatrix) -> (z: PolyMatrix)
    requires
        c.cols + 2 * L - 1 < c.data@.len(),
    ensures
        z@ == pm_ginv(c@),
        z@.wf(),
{
    proof {
        lemma_sizes();
    }
    let mut z = PolyMatrix::zeros(2 * L, 2 * L);
    let mut col: usize = 0;
    while col < 2 * L
        invariant
            col <= 2 * L,
            c.cols + 2 * L - 1 < c.data@.len(),
            z.rows == 2 * L,
            z.cols == 2 * L,
            z.data@.len() == 4 * L * L,
            forall|x: int|
                0 <= x < 4 * L * L ==> (#[trigger] z.data@[x]).coefs@ == if x % (2 * L as int) < col {
                    pm_ginv(c@).data[x]
                } else {
                    pzero()
                },
        decreases 2 * L - col,
    {
        let mut row: usize = 0;
        while row < 2
            invariant
                col < 2 * L,
                row <= 2,
                c.cols + 2 * L - 1 < c.data@.len(),
                z.rows == 2 * L,
                z.cols == 2 * L,
                z.data@.len() == 4 * L * L,
                forall|x: int|
                    0 <= x < 4 * L * L ==> (#[trigger] z.data@[x]).coefs@ == if x % (2 * L as int) < col
                        || (x % (2 * L as int) == col && x / (2 * L as int) < row * L) {
                        pm_ginv(c@).data[x]
                    } else {
                        pzero()
                    },
            decreases 2 - row,
        {
            proof {
                assert(row * c.cols + col < c.data@.len()) by (nonlinear_arith)
                    requires
                        row < 2,
                        col < 2 * L,
                        c.cols + 2 * L - 1 < c.data@.len(),
                ;
            }
            let poly = *c.get(row, col);
            let mut l: usize = 0;
            while l < L
                invariant
                    col < 2 * L,
                    row < 2,
                    l <= L,
                    row * c.cols + col < c.data@.len(),
                    poly == c.data@[row * c.cols + col],
                    c.cols + 2 * L - 1 < c.data@.len(),
                    z.rows == 2 * L,
                    z.cols == 2 * L,
                    z.data@.len() == 4 * L * L,
                    forall|x: int|
                        0 <= x < 4 * L * L ==> (#[trigger] z.data@[x]).coefs@ == if x % (2 * L as int)
                            < col || (x % (2 * L as int) == col && x / (2 * L as int) < row * L + l) {
                            pm_ginv(c@).data[x]
                        } else {
                            pzero()
                        },
                decreases L - l,
            {
                let mut z_poly = Poly::zero();
                let mut d: usize = 0;
                while d < N
                    invariant
                        l < L,
                        d <= N,
                        forall|k: int| 0 <= k < d ==> #[trigger] z_poly.coefs@[k] == bit_of(poly.coefs@[k], l as int),
                    decreases N - d,
                {
                    z_poly.coefs[d] = (poly.coefs[d] >> l) & 1;
                    d += 1;
                }
                proof {
                    lemma_sizes();
                    lemma_rm_index(2 * L as int, 2 * L as int, (row * L + l) as int, col as int);
                    lemma_rm_unflat((row * L + l) as int, col as int, 2 * L as int);
                    let x0 = (row * L + l) * (2 * L) + col;
                    assert((row * L + l) / (L as int) == row as int);
                    assert((row * L + l) % (L as int) == l as int);
                    assert(z_poly.coefs@ =~= pm_ginv(c@).data[x0]);
                }
                *z.get_mut(row * L + l, col) = z_poly;
                proof {
                    assert forall|x: int| 0 <= x < 4 * L * L implies (#[trigger] z.data@[x]).coefs@ == if x
                        % (2 * L as int) < col || (x % (2 * L as int) == col && x / (2 * L as int) < row
                        * L + l + 1) {
                        pm_ginv(c@).data[x]
                    } else {
                        pzero()
                    } by {
                        lemma_sizes();
                        lemma_rm_flat(x, 2 * L as int, 2 * L as int);
                    }
                }
                l += 1;
            }
            row += 1;
        }
        proof {
            assert forall|x: int| 0 <= x < 4 * L * L implies (#[trigger] z.data@[x]).coefs@ == if x % (
            2 * L as int) < col + 1 {
                pm_ginv(c@).data[x]
            } else {
                pzero()
            } by {
                lemma_sizes();
                lemma_rm_flat(x, 2 * L as int, 2 * L as int);
            }
        }
        col += 1;
    }
    assert(z@.data =~= pm_ginv(c@).data);
    z
}

/// Homomorphic addition: the entrywise sum of the ciphertext matrices.
pub fn homomorphic_add(c1: &RgswBitCiphertext, c2: &RgswBitCiphertext) -> (c: RgswBitCiphertext)
    requires
        c1.0.data@.len() <= c1.0.rows * c1.0.cols,
        c1.0.rows * c1.0.cols <= usize::MAX,
        c1.0.data@.len() <= c2.0.data@.len(),
        forall|i: int, k: int|
            0 <= i < c1.0.data@.len() && 0 <= k < N ==> i64::MIN <= #[trigger] c1.0.data@[i].coefs@[k]
                + c2.0.data@[i].coefs@[k] <= i64::MAX,
    ensures
        c.0@ == pm_add(c1.0@, c2.0@),
{
    RgswBitCiphertext(c1.0.add(&c2.0))
}

/// Homomorphic multiplication: `C1 G^-1(C2)`.
pub fn homomorphic_mul(c1: &RgswBitCiphertext, c2: &RgswBitCiphertext) -> (c: RgswBitCiphertext)
    requires
        c1.0.cols == 2 * L,
        c1.0@.covers(),
        c1.0.rows * (2 * L) <= usize::MAX,
        c2.0.cols + 2 * L - 1 < c2.0.data@.len(),
    ensures
        c.0@ == pm_product(c1.0@, pm_ginv(c2.0@), (2 * L) as nat),
        c.0@.wf(),
{
    let z = g_inverse(&c2.0);
    RgswBitCiphertext(c1.0.mul(&z))
}

} // verus!
