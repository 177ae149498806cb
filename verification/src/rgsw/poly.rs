//! Polynomials of `Z_q[X]/(X^N + 1)` and matrices of them.
use vstd::prelude::*;
use vstd::arithmetic::div_mod::*;
use rand::rngs::ThreadRng;
use rayon::iter::{IntoParallelIterator, ParallelIterator};
use crate::arith::{rem_euclid, rem_euclid_wide, sum};
use crate::params::rgsw::{N, Q};
use crate::rng::gen_range;

verus! {

/// A polynomial of `Z_q[X]/(X^N + 1)` given by its `N` coefficients.
#[derive(Clone, Copy, Debug, PartialEq, Eq)]
pub struct Poly {
    pub coefs: [i64; N],
}

/// The zero polynomial's coefficients.
pub open spec fn pzero() -> Seq<i64> {
    Seq::new(N as nat, |k: int| 0i64)
}

/// Coefficients of the constant polynomial `s mod q`.
pub open spec fn pconst(s: int) -> Seq<i64> {
    Seq::new(N as nat, |k: int| if k == 0 { (s % (Q as int)) as i64 } else { 0i64 })
}

/// Coefficientwise sum modulo `q`.
pub open spec fn padd(a: Seq<i64>, b: Seq<i64>) -> Seq<i64> {
    Seq::new(N as nat, |k: int| ((a[k] + b[k]) % (Q as int)) as i64)
}

/// Coefficientwise multiple by `s` modulo `q`.
pub open spec fn pscale(a: Seq<i64>, s: int) -> Seq<i64> {
    Seq::new(N as nat, |k: int| ((a[k] * s) % (Q as int)) as i64)
}

/// The contribution of `a_i X^i * b_j X^j` to coefficient `k` of the product
/// modulo `X^N + 1`, where `X^N = -1`.
pub open spec fn nc_term(a: Seq<i64>, b: Seq<i64>, i: int, j: int, k: int) -> int {
    if i + j == k {
        a[i] * b[j]
    } else if i + j == k + N {
        -(a[i] * b[j])
    } else {
        0
    }
}

/// The terms `j < jn` of row `i` of the negacyclic product at coefficient `k`.
pub open spec fn nc_row(a: Seq<i64>, b: Seq<i64>, k: int, i: int, jn: nat) -> int {
    sum(|j: int| nc_term(a, b, i, j, k), jn)
}

/// The rows `i < n` of the negacyclic product at coefficient `k`.
pub open spec fn nc_rows(a: Seq<i64>, b: Seq<i64>, k: int, n: nat) -> int {
    sum(|i: int| nc_row(a, b, k, i, N as nat), n)
}

/// Coefficient `k` of `a * b` in `Z[X]/(X^N + 1)`, before reduction modulo `q`.
pub open spec fn nc_coef(a: Seq<i64>, b: Seq<i64>, k: int) -> int {
    nc_rows(a, b, k, N as nat)
}

/// Coefficients of `a * b` in `Z_q[X]/(X^N + 1)`.
pub open spec fn pmul(a: Seq<i64>, b: Seq<i64>) -> Seq<i64> {
    Seq::new(N as nat, |k: int| (nc_coef(a, b, k) % (Q as int)) as i64)
}

/// Every coefficient lies in `[lo, hi]`.
pub open spec fn coefs_within(a: Seq<i64>, lo: int, hi: int) -> bool {
    forall|k: int| 0 <= k < N ==> lo <= #[trigger] a[k] <= hi
}

impl Poly {
    /// The zero polynomial.
    pub fn zero() -> (p: Poly)
        ensures
            p.coefs@ == pzero(),
    {
        let p = Poly { coefs: [0i64; N] };
        assert(p.coefs@ =~= pzero());
        p
    }

    /// The constant polynomial `s mod q`.
    pub fn from_scalar(s: i64) -> (p: Poly)
        ensures
            p.coefs@ == pconst(s as int),
    {
        let mut p = Poly::zero();
        p.coefs[0] = rem_euclid(s, Q);
        assert(p.coefs@ =~= pconst(s as int));
        p
    }

    /// A polynomial with coefficients drawn uniformly from `[0, q)`.
    pub fn rand_mod_q(rng: &mut ThreadRng) -> (p: Poly)
        ensures
            coefs_within(p.coefs@, 0, Q - 1),
    {
        Poly::random(rng, 0, Q - 1)
    }

    /// A polynomial with coefficients drawn uniformly from `{0, 1}`.
    pub fn rand_binary(rng: &mut ThreadRng) -> (p: Poly)
        ensures
            coefs_within(p.coefs@, 0, 1),
    {
        Poly::random(rng, 0, 1)
    }

    /// A polynomial with coefficients drawn uniformly from `{-1, 0, 1}`.
    pub fn rand_noise(rng: &mut ThreadRng) -> (p: Poly)
        ensures
            coefs_within(p.coefs@, -1, 1),
    {
        Poly::random(rng, -1, 1)
    }

    fn random(rng: &mut ThreadRng, lo: i64, hi: i64) -> (p: Poly)
        requires
            lo <= 0 <= hi,
        ensures
            coefs_within(p.coefs@, lo as int, hi as int),
    {
        let mut p = Poly::zero();
        let mut i: usize = 0;
        while i < N
            invariant
                i <= N,
                lo <= 0 <= hi,
                forall|k: int| 0 <= k < N ==> lo <= #[trigger] p.coefs@[k] <= hi,
            decreases N - i,
        {
            p.coefs[i] = gen_range(rng, lo, hi);
            i += 1;
        }
        p
    }

    /// Coefficientwise sum modulo `q`.
    pub fn add(&self, other: &Poly) -> (p: Poly)
        requires
            forall|k: int|
                0 <= k < N ==> i64::MIN <= #[trigger] self.coefs@[k] + other.coefs@[k] <= i64::MAX,
        ensures
            p.coefs@ == padd(self.coefs@, other.coefs@),
    {
        let mut p = Poly::zero();
        let mut i: usize = 0;
        while i < N
            invariant
                i <= N,
                forall|k: int|
                    0 <= k < N ==> i64::MIN <= #[trigger] self.coefs@[k] + other.coefs@[k]
                        <= i64::MAX,
                forall|k: int|
                    0 <= k < i ==> #[trigger] p.coefs@[k] == padd(self.coefs@, other.coefs@)[k],
            decreases N - i,
        {
            p.coefs[i] = rem_euclid(self.coefs[i] + other.coefs[i], Q);
            i += 1;
        }
        assert(p.coefs@ =~= padd(self.coefs@, other.coefs@));
        p
    }

    /// The product modulo `X^N + 1` and `q`: coefficient `k` collects
    /// `a_i b_j` for `i + j = k` and `-a_i b_j` for `i + j = k + N`.
    pub fn mul(&self, other: &Poly) -> (p: Poly)
        ensures
            p.coefs@ == pmul(self.coefs@, other.coefs@),
    {
        let ghost a = self.coefs@;
        let ghost b = other.coefs@;
        let mut p = Poly::zero();
        let mut i: usize = 0;
        while i < N
            invariant
                i <= N,
                a == self.coefs@,
                b == other.coefs@,
                forall|k: int|
                    0 <= k < N ==> #[trigger] p.coefs@[k] == nc_rows(a, b, k, i as nat) % (Q as int),
            decreases N - i,
        {
            let mut j: usize = 0;
            while j < N
                invariant
                    i < N,
                    j <= N,
                    a == self.coefs@,
                    b == other.coefs@,
                    forall|k: int|
                        0 <= k < N ==> #[trigger] p.coefs@[k] == (nc_rows(a, b, k, i as nat) + nc_row(
                            a,
                            b,
                            k,
                            i as int,
                            j as nat,
                        )) % (Q as int),
                decreases N - j,
            {
                let x = self.coefs[i];
                let y = other.coefs[j];
                proof {
                    assert(-0x4000_0000_0000_0000_0000_0000_0000_0000 <= (x as int) * (y as int)
                        <= 0x4000_0000_0000_0000_0000_0000_0000_0000) by (nonlinear_arith)
                        requires
                            i64::MIN <= x <= i64::MAX,
                            i64::MIN <= y <= i64::MAX,
                    ;
                }
                let prod = rem_euclid_wide((x as i128) * (y as i128), Q as i128) as i64;
                let target = i + j;
                let ghost old_p = p.coefs@;
                proof {
                    assert forall|k: int| 0 <= k < N implies #[trigger] nc_row(a, b, k, i as int, (j + 1) as nat)
                        == nc_row(a, b, k, i as int, j as nat) + nc_term(a, b, i as int, j as int, k) by {}
                }
                if target >= N {
                    let t = target - N;
                    p.coefs[t] = rem_euclid(p.coefs[t] - prod, Q);
                    proof {
                        let s0 = nc_rows(a, b, t as int, i as nat) + nc_row(a, b, t as int, i as int, j as nat);
                        lemma_sub_mod_noop(s0, x * y, Q as int);
                        lemma_mod_twice(s0, Q as int);
                        lemma_mod_twice(x * y, Q as int);
                    }
                } else {
                    p.coefs[target] = rem_euclid(p.coefs[target] + prod, Q);
                    proof {
                        let s0 = nc_rows(a, b, target as int, i as nat) + nc_row(
                            a,
                            b,
                            target as int,
                            i as int,
                            j as nat,
                        );
                        lemma_add_mod_noop(s0, x * y, Q as int);
                        lemma_mod_twice(s0, Q as int);
                        lemma_mod_twice(x * y, Q as int);
                    }
                }
                j += 1;
            }
            proof {
                assert forall|k: int| 0 <= k < N implies #[trigger] nc_rows(a, b, k, (i + 1) as nat)
                    == nc_rows(a, b, k, i as nat) + nc_row(a, b, k, i as int, N as nat) by {}
            }
            i += 1;
        }
        assert(p.coefs@ =~= pmul(a, b));
        p
    }

    /// Coefficientwise multiple by `scalar` modulo `q`.
    pub fn scalar_mul(&self, scalar: i64) -> (p: Poly)
        ensures
            p.coefs@ == pscale(self.coefs@, scalar as int),
    {
        let mut p = Poly::zero();
        let mut i: usize = 0;
        while i < N
            invariant
                i <= N,
                forall|k: int|
                    0 <= k < i ==> #[trigger] p.coefs@[k] == pscale(self.coefs@, scalar as int)[k],
            decreases N - i,
        {
            let x = self.coefs[i];
            proof {
                assert(-0x4000_0000_0000_0000_0000_0000_0000_0000 <= (x as int) * (scalar as int)
                    <= 0x4000_0000_0000_0000_0000_0000_0000_0000) by (nonlinear_arith)
                    requires
                        i64::MIN <= x <= i64::MAX,
                        i64::MIN <= scalar <= i64::MAX,
                ;
            }
            p.coefs[i] = rem_euclid_wide((x as i128) * (scalar as i128), Q as i128) as i64;
            i += 1;
        }
        assert(p.coefs@ =~= pscale(self.coefs@, scalar as int));
        p
    }
}

/// The mathematical value of a polynomial matrix: its shape and the coefficient
/// sequences of its entries, stored row by row.
#[verifier::ext_equal]
pub struct PolyMat {
    pub rows: nat,
    pub cols: nat,
    pub data: Seq<Seq<i64>>,
}

/// A matrix of polynomials, stored row by row: entry `(r, c)` is
/// `data[r * cols + c]`.
#[derive(Clone, Debug)]
pub struct PolyMatrix {
    pub rows: usize,
    pub cols: usize,
    pub data: Vec<Poly>,
}

impl View for PolyMatrix {
    type V = PolyMat;

    open spec fn view(&self) -> PolyMat {
        PolyMat {
            rows: self.rows as nat,
            cols: self.cols as nat,
            data: self.data@.map_values(|p: Poly| p.coefs@),
        }
    }
}

impl PolyMat {
    /// The storage holds exactly `rows * cols` entries.
    pub open spec fn wf(self) -> bool {
        self.data.len() == self.rows * self.cols
    }

    /// The storage holds at least `rows * cols` entries.
    pub open spec fn covers(self) -> bool {
        self.rows * self.cols <= self.data.len()
    }

    /// Entry `(r, c)`.
    pub open spec fn entry(self, r: int, c: int) -> Seq<i64> {
        self.data[r * self.cols + c]
    }
}

/// The `rows x cols` zero matrix.
pub open spec fn pm_zeros(rows: nat, cols: nat) -> PolyMat {
    PolyMat { rows, cols, data: Seq::new(rows * cols, |i: int| pzero()) }
}

/// The sum as `PolyMatrix::add` forms it: a `rows x cols` matrix whose first
/// entries are the sums of the stored entries of `a` and `b`, the rest zero.
pub open spec fn pm_add(a: PolyMat, b: PolyMat) -> PolyMat {
    PolyMat {
        rows: a.rows,
        cols: a.cols,
        data: Seq::new(
            a.rows * a.cols,
            |i: int| if i < a.data.len() { padd(a.data[i], b.data[i]) } else { pzero() },
        ),
    }
}

/// `sum_{k < n} a[r][k] * b[k][c]`, accumulated modulo `q`.
pub open spec fn pm_dot(a: PolyMat, b: PolyMat, r: int, c: int, n: nat) -> Seq<i64>
    decreases n,
{
    if n == 0 {
        pzero()
    } else {
        padd(pm_dot(a, b, r, c, (n - 1) as nat), pmul(a.entry(r, n - 1), b.entry(n - 1, c)))
    }
}

/// The accumulated entries of a product have coefficients in `[0, q)`.
pub proof fn lemma_pm_dot_reduced(a: PolyMat, b: PolyMat, r: int, c: int, n: nat)
    ensures
        coefs_within(pm_dot(a, b, r, c, n), 0, Q - 1),
        pm_dot(a, b, r, c, n).len() == N,
{
}

/// The product `a * b` over the first `inner` columns of `a` and rows of `b`.
pub open spec fn pm_product(a: PolyMat, b: PolyMat, inner: nat) -> PolyMat {
    PolyMat {
        rows: a.rows,
        cols: b.cols,
        data: Seq::new(a.rows * b.cols, |x: int| pm_dot(a, b, x / (b.cols as int), x % (b.cols as int), inner)),
    }
}

/// The transpose.
pub open spec fn pm_transpose(a: PolyMat) -> PolyMat {
    PolyMat {
        rows: a.cols,
        cols: a.rows,
        data: Seq::new(a.rows * a.cols, |x: int| a.entry(x % (a.rows as int), x / (a.rows as int))),
    }
}

/// Transposing twice gives the matrix back.
pub proof fn transpose_involutive(a: PolyMat)
    requires
        a.wf(),
    ensures
        pm_transpose(pm_transpose(a)) == a,
{
    let t = pm_transpose(a);
    let tt = pm_transpose(t);
    let r = a.rows as int;
    let c = a.cols as int;
    vstd::arithmetic::mul::lemma_mul_is_commutative(r, c);
    assert forall|x: int| 0 <= x < a.data.len() implies #[trigger] tt.data[x] == a.data[x] by {
        assert(c > 0) by (nonlinear_arith)
            requires
                0 <= x < r * c,
                r >= 0,
                c >= 0,
        ;
        lemma_rm_flat(x, r, c);
        let y = (x % c) * r + x / c;
        lemma_rm_index(c, r, x % c, x / c);
        lemma_rm_unflat(x % c, x / c, r);
        assert(tt.data[x] == t.data[y]);
        assert(t.data[y] == a.entry(x / c, x % c));
    }
    assert(tt.data =~= a.data);
}

/// The product `a * b` can be formed over `inner` terms: every entry it reads is
/// stored.
pub open spec fn product_ok(a: PolyMat, b: PolyMat, inner: nat) -> bool {
    &&& a.covers()
    &&& b.covers()
    &&& inner <= a.cols
    &&& inner <= b.rows
    &&& a.rows * b.cols <= usize::MAX
}

/// Row-major positions of a `rows x cols` matrix lie in its storage.
pub proof fn lemma_rm_index(rows: int, cols: int, r: int, c: int)
    requires
        0 <= r < rows,
        0 <= c < cols,
    ensures
        0 <= r * cols + c < rows * cols,
{
    assert(0 <= r * cols) by (nonlinear_arith)
        requires
            0 <= r,
            0 <= cols,
    ;
    assert(r * cols + c < rows * cols) by (nonlinear_arith)
        requires
            0 <= r < rows,
            0 <= c < cols,
    ;
}

/// A row-major position `x` of a `rows x cols` matrix holds entry
/// `(x / cols, x % cols)`.
pub proof fn lemma_rm_flat(x: int, rows: int, cols: int)
    requires
        0 <= x < rows * cols,
        cols > 0,
    ensures
        x == (x / cols) * cols + x % cols,
        0 <= x % cols < cols,
        0 <= x / cols < rows,
{
    lemma_fundamental_div_mod(x, cols);
    vstd::arithmetic::mul::lemma_mul_is_commutative(x / cols, cols);
    lemma_div_pos_is_pos(x, cols);
    let q = x / cols;
    let r = x % cols;
    assert(q < rows) by (nonlinear_arith)
        requires
            x == q * cols + r,
            0 <= r,
            x < rows * cols,
            cols > 0,
    ;
}

/// Row `r` and column `c` recovered from the row-major position `r * cols + c`.
pub proof fn lemma_rm_unflat(r: int, c: int, cols: int)
    requires
        0 <= r,
        0 <= c < cols,
    ensures
        (r * cols + c) / cols == r,
        (r * cols + c) % cols == c,
{
    vstd::arithmetic::div_mod::lemma_fundamental_div_mod_converse(r * cols + c, cols, r, c);
}

/// Entry `(r, c)` of `a * b` over the first `inner` terms: the fold of
/// `sum = sum + a[r][k] * b[k][c]` from the zero polynomial.
fn product_entry(a: &PolyMatrix, b: &PolyMatrix, inner: usize, r: usize, c: usize) -> (p: Poly)
    requires
        product_ok(a@, b@, inner as nat),
        r < a.rows,
        c < b.cols,
    ensures
        p.coefs@ == pm_dot(a@, b@, r as int, c as int, inner as nat),
{
    let mut acc = Poly::zero();
    let mut k: usize = 0;
    while k < inner
        invariant
            product_ok(a@, b@, inner as nat),
            r < a.rows,
            c < b.cols,
            k <= inner,
            acc.coefs@ == pm_dot(a@, b@, r as int, c as int, k as nat),
            coefs_within(acc.coefs@, 0, Q - 1),
        decreases inner - k,
    {
        proof {
            lemma_rm_index(a.rows as int, a.cols as int, r as int, k as int);
            lemma_rm_index(b.rows as int, b.cols as int, k as int, c as int);
        }
        let x = a.get(r, k);
        let y = b.get(k, c);
        let t = x.mul(y);
        proof {
            assert(a@.entry(r as int, k as int) == x.coefs@);
            assert(b@.entry(k as int, c as int) == y.coefs@);
            assert forall|i: int| 0 <= i < N implies 0 <= #[trigger] t.coefs@[i] < Q by {
                assert(t.coefs@[i] == pmul(x.coefs@, y.coefs@)[i]);
            }
        }
        acc = acc.add(&t);
        k += 1;
        proof {
            assert forall|i: int| 0 <= i < N implies 0 <= #[trigger] acc.coefs@[i] < Q by {
                assert(acc.coefs@[i] == padd(pm_dot(a@, b@, r as int, c as int, (k - 1) as nat), t.coefs@)[i]);
            }
        }
    }
    acc
}

/// Row `r` of `a * b` over the first `inner` terms.
pub fn product_row(a: &PolyMatrix, b: &PolyMatrix, inner: usize, r: usize) -> (row: Vec<Poly>)
    requires
        product_ok(a@, b@, inner as nat),
        r < a.rows,
    ensures
        row@.len() == b.cols,
        forall|c: int|
            0 <= c < b.cols ==> (#[trigger] row@[c]).coefs@ == pm_dot(a@, b@, r as int, c, inner as nat),
{
    let mut row: Vec<Poly> = Vec::new();
    let mut c: usize = 0;
    while c < b.cols
        invariant
            product_ok(a@, b@, inner as nat),
            r < a.rows,
            c <= b.cols,
            row@.len() == c,
            forall|c2: int|
                0 <= c2 < c ==> (#[trigger] row@[c2]).coefs@ == pm_dot(a@, b@, r as int, c2, inner as nat),
        decreases b.cols - c,
    {
        row.push(product_entry(a, b, inner, r, c));
        c += 1;
    }
    row
}

/// The rows of `a * b` over the first `inner` terms, computed in parallel with
/// `rayon`: `into_par_iter` over the row indices, `map` with `product_row`, and
/// `collect` into a `Vec`, which keeps the order of an indexed parallel iterator.
/// The contract states that row `r` of the result is what `product_row` returns
/// for `r`.
#[verifier::external_body]
fn par_product_rows(a: &PolyMatrix, b: &PolyMatrix, inner: usize) -> (rows: Vec<Vec<Poly>>)
    requires
        product_ok(a@, b@, inner as nat),
    ensures
        rows@.len() == a.rows,
        forall|r: int| 0 <= r < a.rows ==> (#[trigger] rows@[r])@.len() == b.cols,
        forall|r: int, c: int|
            0 <= r < a.rows && 0 <= c < b.cols ==> (#[trigger] rows@[r]@[c]).coefs@ == pm_dot(
                a@,
                b@,
                r,
                c,
                inner as nat,
            ),
{
    (0..a.rows).into_par_iter().map(|r| product_row(a, b, inner, r)).collect()
}

/// `a * b` over the first `inner` terms, its rows computed in parallel.
pub(crate) fn product(a: &PolyMatrix, b: &PolyMatrix, inner: usize) -> (p: PolyMatrix)
    requires
        product_ok(a@, b@, inner as nat),
    ensures
        p@ == pm_product(a@, b@, inner as nat),
        p@.wf(),
        p.rows == a.rows,
        p.cols == b.cols,
        p.data@.len() == a.rows * b.cols,
{
    let rows = par_product_rows(a, b, inner);
    let mut data: Vec<Poly> = Vec::new();
    let mut r: usize = 0;
    while r < a.rows
        invariant
            product_ok(a@, b@, inner as nat),
            rows@.len() == a.rows,
            forall|r2: int| 0 <= r2 < a.rows ==> (#[trigger] rows@[r2])@.len() == b.cols,
            forall|r2: int, c: int|
                0 <= r2 < a.rows && 0 <= c < b.cols ==> (#[trigger] rows@[r2]@[c]).coefs@ == pm_dot(
                    a@,
                    b@,
                    r2,
                    c,
                    inner as nat,
                ),
            r <= a.rows,
            data@.len() == r * b.cols,
            forall|x: int|
                0 <= x < r * b.cols ==> (#[trigger] data@[x]).coefs@ == pm_dot(
                    a@,
                    b@,
                    x / (b.cols as int),
                    x % (b.cols as int),
                    inner as nat,
                ),
        decreases a.rows - r,
    {
        let mut c: usize = 0;
        proof {
            assert(r * b.cols + b.cols <= a.rows * b.cols) by (nonlinear_arith)
                requires
                    r < a.rows,
            ;
        }
        while c < b.cols
            invariant
                product_ok(a@, b@, inner as nat),
                rows@.len() == a.rows,
                forall|r2: int| 0 <= r2 < a.rows ==> (#[trigger] rows@[r2])@.len() == b.cols,
                forall|r2: int, c: int|
                    0 <= r2 < a.rows && 0 <= c < b.cols ==> (#[trigger] rows@[r2]@[c]).coefs@
                        == pm_dot(a@, b@, r2, c, inner as nat),
                r < a.rows,
                r * b.cols + b.cols <= a.rows * b.cols,
                c <= b.cols,
                data@.len() == r * b.cols + c,
                forall|x: int|
                    0 <= x < r * b.cols + c ==> (#[trigger] data@[x]).coefs@ == pm_dot(
                        a@,
                        b@,
                        x / (b.cols as int),
                        x % (b.cols as int),
                        inner as nat,
                    ),
            decreases b.cols - c,
        {
            proof {
                assert(rows@[r as int]@.len() == b.cols);
                lemma_rm_unflat(r as int, c as int, b.cols as int);
            }
            data.push(rows[r][c]);
            c += 1;
        }
        proof {
            assert((r + 1) * b.cols == r * b.cols + b.cols) by (nonlinear_arith);
        }
        r += 1;
    }
    let p = PolyMatrix { rows: a.rows, cols: b.cols, data };
    assert(p@.data =~= pm_product(a@, b@, inner as nat).data);
    p
}

impl PolyMatrix {
    /// The `rows x cols` matrix of zero polynomials.
    pub fn zeros(rows: usize, cols: usize) -> (m: PolyMatrix)
        requires
            rows * cols <= usize::MAX,
        ensures
            m@ == pm_zeros(rows as nat, cols as nat),
            m.rows == rows,
            m.cols == cols,
            m.data@.len() == rows * cols,
            forall|i: int| 0 <= i < rows * cols ==> (#[trigger] m.data@[i]).coefs@ == pzero(),
    {
        let n = rows * cols;
        let mut data: Vec<Poly> = Vec::new();
        while data.len() < n
            invariant
                data@.len() <= n,
                forall|i: int| 0 <= i < data@.len() ==> (#[trigger] data@[i]).coefs@ == pzero(),
            decreases n - data@.len(),
        {
            data.push(Poly::zero());
        }
        let m = PolyMatrix { rows, cols, data };
        assert(m@.data =~= pm_zeros(rows as nat, cols as nat).data);
        m
    }

    /// Entry `(r, c)`, stored at `data[r * cols + c]`.
    pub fn get(&self, r: usize, c: usize) -> (p: &Poly)
        requires
            r * self.cols + c < self.data@.len(),
        ensures
            *p == self.data@[r * self.cols + c],
    {
        let n = self.data.len();
        &self.data[r * self.cols + c]
    }

    /// Entry `(r, c)`, stored at `data[r * cols + c]`, for writing.
    pub fn get_mut(&mut self, r: usize, c: usize) -> (p: &mut Poly)
        requires
            r * old(self).cols + c < old(self).data@.len(),
        ensures
            *p == old(self).data@[r * old(self).cols + c],
            final(self).rows == old(self).rows,
            final(self).cols == old(self).cols,
            final(self).data@ == old(self).data@.update(r * old(self).cols + c, *final(p)),
    {
        let n = self.data.len();
        &mut self.data[r * self.cols + c]
    }

    /// The entrywise sum modulo `q` of the stored entries of `self` and `other`, in a
    /// fresh `rows x cols` matrix.
    pub fn add(&self, other: &PolyMatrix) -> (m: PolyMatrix)
        requires
            self.data@.len() <= self.rows * self.cols,
            self.rows * self.cols <= usize::MAX,
            self.data@.len() <= other.data@.len(),
            forall|i: int, k: int|
                0 <= i < self.data@.len() && 0 <= k < N ==> i64::MIN <= #[trigger] self.data@[i].coefs@[k]
                    + other.data@[i].coefs@[k] <= i64::MAX,
        ensures
            m@ == pm_add(self@, other@),
    {
        let mut res = PolyMatrix::zeros(self.rows, self.cols);
        let mut i: usize = 0;
        while i < self.data.len()
            invariant
                i <= self.data@.len(),
                self.data@.len() <= self.rows * self.cols,
                self.data@.len() <= other.data@.len(),
                forall|i: int, k: int|
                    0 <= i < self.data@.len() && 0 <= k < N ==> i64::MIN <= #[trigger] self.data@[i].coefs@[k]
                        + other.data@[i].coefs@[k] <= i64::MAX,
                res.rows == self.rows,
                res.cols == self.cols,
                res.data@.len() == self.rows * self.cols,
                forall|x: int|
                    0 <= x < res.data@.len() ==> (#[trigger] res.data@[x]).coefs@ == if x < i {
                        padd(self.data@[x].coefs@, other.data@[x].coefs@)
                    } else {
                        pzero()
                    },
            decreases self.data@.len() - i,
        {
            let s = self.data[i].add(&other.data[i]);
            res.data.set(i, s);
            i += 1;
        }
        assert(res@.data =~= pm_add(self@, other@).data);
        res
    }

    /// The product `self * other`; the inner dimensions must agree.
    pub fn mul(&self, other: &PolyMatrix) -> (m: PolyMatrix)
        requires
            self.cols == other.rows,
            other.cols > 0,
            product_ok(self@, other@, self.cols as nat),
        ensures
            m@ == pm_product(self@, other@, self.cols as nat),
            m@.wf(),
    {
        product(self, other, self.cols)
    }

    /// The transpose.
    pub fn transpose(&self) -> (m: PolyMatrix)
        requires
            self@.covers(),
            self.rows * self.cols <= usize::MAX,
        ensures
            m@ == pm_transpose(self@),
            m@.wf(),
            m.rows == self.cols,
            m.cols == self.rows,
            m.data@.len() == self.rows * self.cols,
    {
        proof {
            vstd::arithmetic::mul::lemma_mul_is_commutative(self.rows as int, self.cols as int);
        }
        let mut res = PolyMatrix::zeros(self.cols, self.rows);
        let mut r: usize = 0;
        while r < self.rows
            invariant
                r <= self.rows,
                self.cols * self.rows == self.rows * self.cols,
                self.rows * self.cols <= usize::MAX,
                self@.covers(),
                res.rows == self.cols,
                res.cols == self.rows,
                res.data@.len() == self.rows * self.cols,
                forall|x: int|
                    0 <= x < res.data@.len() ==> (#[trigger] res.data@[x]).coefs@ == if x
                        % (self.rows as int) < r {
                        self@.entry(x % (self.rows as int), x / (self.rows as int))
                    } else {
                        pzero()
                    },
            decreases self.rows - r,
        {
            let mut c: usize = 0;
            while c < self.cols
                invariant
                    r < self.rows,
                    c <= self.cols,
                    self.cols * self.rows == self.rows * self.cols,
                    self.rows * self.cols <= usize::MAX,
                    self@.covers(),
                    res.rows == self.cols,
                    res.cols == self.rows,
                    res.data@.len() == self.rows * self.cols,
                    forall|x: int|
                        0 <= x < res.data@.len() ==> (#[trigger] res.data@[x]).coefs@ == if x
                            % (self.rows as int) < r || (x % (self.rows as int) == r && x
                            / (self.rows as int) < c) {
                            self@.entry(x % (self.rows as int), x / (self.rows as int))
                        } else {
                            pzero()
                        },
                decreases self.cols - c,
            {
                proof {
                    lemma_rm_index(self.rows as int, self.cols as int, r as int, c as int);
                    lemma_rm_index(self.cols as int, self.rows as int, c as int, r as int);
                    vstd::arithmetic::mul::lemma_mul_is_commutative(self.rows as int, self.cols as int);
                    lemma_rm_unflat(c as int, r as int, self.rows as int);
                }
                let p = *self.get(r, c);
                let ghost pos = c * self.rows + r;
                res.data.set(c * self.rows + r, p);
                proof {
                    assert forall|x: int| 0 <= x < res.data@.len() implies (
                    #[trigger] res.data@[x]).coefs@ == if x % (self.rows as int) < r || (x % (
                    self.rows as int) == r && x / (self.rows as int) < c + 1) {
                        self@.entry(x % (self.rows as int), x / (self.rows as int))
                    } else {
                        pzero()
                    } by {
                        lemma_rm_flat(x, self.cols as int, self.rows as int);
                    }
                }
                c += 1;
            }
            proof {
                assert forall|x: int| 0 <= x < res.data@.len() implies (
                #[trigger] res.data@[x]).coefs@ == if x % (self.rows as int) < r + 1 {
                    self@.entry(x % (self.rows as int), x / (self.rows as int))
                } else {
                    pzero()
                } by {
                    lemma_rm_flat(x, self.cols as int, self.rows as int);
                }
            }
            r += 1;
        }
        proof {
            assert forall|x: int| 0 <= x < res.data@.len() implies (
            #[trigger] res.data@[x]).coefs@ == self@.entry(
                x % (self.rows as int),
                x / (self.rows as int),
            ) by {
                lemma_rm_flat(x, self.cols as int, self.rows as int);
            }
        }
        assert(res@.data =~= pm_transpose(self@).data);
        res
    }
}

} // verus!
