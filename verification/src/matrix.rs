//! Dense integer matrices, stored column by column as `nalgebra` stores them;
//! the products, sums, transposes and scalings are computed by `nalgebra`.
use vstd::prelude::*;
use nalgebra::DMatrix;
use crate::arith::{abs, rem_euclid, sum};

verus! {

/// A dense matrix of `i64`, stored column by column: entry `(r, c)` is
/// `data[c * rows + r]`.
#[derive(Clone, Debug, PartialEq, Eq)]
pub struct Matrix {
    pub rows: usize,
    pub cols: usize,
    pub data: Vec<i64>,
}

impl Matrix {
    /// The storage holds exactly `rows * cols` entries.
    pub open spec fn wf(&self) -> bool {
        self.data.len() == self.rows * self.cols
    }

    /// Entry `(r, c)`.
    pub open spec fn at(&self, r: int, c: int) -> int {
        self.data@[c * self.rows + r] as int
    }

    /// Every entry lies in `[lo, hi]`.
    pub open spec fn within(&self, lo: int, hi: int) -> bool {
        forall|r: int, c: int|
            0 <= r < self.rows && 0 <= c < self.cols ==> lo <= #[trigger] self.at(r, c) <= hi
    }

    /// A `rows x cols` matrix of zeros.
    pub fn zeros(rows: usize, cols: usize) -> (m: Matrix)
        requires
            rows * cols <= usize::MAX,
        ensures
            m.wf(),
            m.rows == rows,
            m.cols == cols,
            forall|r: int, c: int| 0 <= r < rows && 0 <= c < cols ==> #[trigger] m.at(r, c) == 0,
    {
        let n = rows * cols;
        let mut data: Vec<i64> = Vec::new();
        while data.len() < n
            invariant
                data.len() <= n,
                forall|i: int| 0 <= i < data.len() ==> data@[i] == 0,
            decreases n - data.len(),
        {
            data.push(0);
        }
        let m = Matrix { rows, cols, data };
        proof {
            assert forall|r: int, c: int| 0 <= r < rows && 0 <= c < cols implies
                #[trigger] m.at(r, c) == 0 by {
                lemma_index(rows as int, cols as int, r, c);
            }
        }
        m
    }

    /// Entry `(r, c)`.
    pub fn get(&self, r: usize, c: usize) -> (x: i64)
        requires
            self.wf(),
            r < self.rows,
            c < self.cols,
        ensures
            x == self.at(r as int, c as int),
    {
        proof {
            lemma_index(self.rows as int, self.cols as int, r as int, c as int);
        }
        self.data[c * self.rows + r]
    }

    /// Sets entry `(r, c)` to `x`, leaving the others.
    pub fn set(&mut self, r: usize, c: usize, x: i64)
        requires
            old(self).wf(),
            r < old(self).rows,
            c < old(self).cols,
        ensures
            final(self).wf(),
            final(self).rows == old(self).rows,
            final(self).cols == old(self).cols,
            final(self).at(r as int, c as int) == x,
            forall|r2: int, c2: int|
                0 <= r2 < old(self).rows && 0 <= c2 < old(self).cols && (r2 != r || c2 != c)
                    ==> #[trigger] final(self).at(r2, c2) == old(self).at(r2, c2),
    {
        proof {
            lemma_index(self.rows as int, self.cols as int, r as int, c as int);
        }
        let i = c * self.rows + r;
        self.data.set(i, x);
        proof {
            assert forall|r2: int, c2: int|
                0 <= r2 < old(self).rows && 0 <= c2 < old(self).cols && (r2 != r || c2 != c)
                    implies #[trigger] self.at(r2, c2) == old(self).at(r2, c2) by {
                lemma_index(self.rows as int, self.cols as int, r2, c2);
                lemma_index_injective(self.rows as int, r as int, c as int, r2, c2);
            }
        }
    }
}

/// Entry positions of a `rows x cols` matrix stored column by column lie in the storage.
pub proof fn lemma_index(rows: int, cols: int, r: int, c: int)
    requires
        0 <= r < rows,
        0 <= c < cols,
    ensures
        0 <= c * rows + r < rows * cols,
{
    assert(0 <= c * rows) by (nonlinear_arith)
        requires
            0 <= c,
            0 <= rows,
    ;
    assert(c * rows + r < rows * cols) by (nonlinear_arith)
        requires
            0 <= r < rows,
            0 <= c < cols,
    ;
}

/// A storage position `x` of a `rows x cols` matrix holds entry
/// `(x % rows, x / rows)`.
pub proof fn lemma_flat_index(x: int, rows: int, cols: int)
    requires
        0 <= x < rows * cols,
        rows > 0,
    ensures
        x == (x / rows) * rows + x % rows,
        0 <= x % rows < rows,
        0 <= x / rows < cols,
{
    vstd::arithmetic::div_mod::lemma_fundamental_div_mod(x, rows);
    vstd::arithmetic::mul::lemma_mul_is_commutative(x / rows, rows);
    vstd::arithmetic::div_mod::lemma_div_pos_is_pos(x, rows);
    let q = x / rows;
    let r = x % rows;
    assert(q < cols) by (nonlinear_arith)
        requires
            x == q * rows + r,
            0 <= r,
            x < rows * cols,
            rows > 0,
    ;
}

/// Distinct entry positions are stored at distinct places.
pub proof fn lemma_index_injective(rows: int, r: int, c: int, r2: int, c2: int)
    requires
        0 <= r < rows,
        0 <= r2 < rows,
        0 <= c,
        0 <= c2,
        r != r2 || c != c2,
    ensures
        c * rows + r != c2 * rows + r2,
{
    if c == c2 {
    } else if c < c2 {
        assert(c * rows + rows <= c2 * rows) by (nonlinear_arith)
            requires
                c < c2,
                0 <= rows,
        ;
    } else {
        assert(c2 * rows + rows <= c * rows) by (nonlinear_arith)
            requires
                c2 < c,
                0 <= rows,
        ;
    }
}

/// Entry `(i, j)` of the product `a * b` summed over the first `n` terms of the
/// shared dimension.
pub open spec fn dot(a: Matrix, b: Matrix, i: int, j: int, n: nat) -> int {
    sum(|k: int| a.at(i, k) * b.at(k, j), n)
}

/// The sum of the magnitudes of the terms of `dot`.
pub open spec fn abs_dot(a: Matrix, b: Matrix, i: int, j: int, n: nat) -> int {
    sum(|k: int| abs(a.at(i, k) * b.at(k, j)), n)
}

/// Every entry of `a * b` is computed without leaving the range of `i64`, whatever
/// the order in which its terms are added.
pub open spec fn mul_fits(a: Matrix, b: Matrix) -> bool {
    forall|i: int, j: int|
        0 <= i < a.rows && 0 <= j < b.cols ==> #[trigger] abs_dot(a, b, i, j, a.cols as nat)
            <= i64::MAX
}

/// The matrix product `a * b`, computed by `nalgebra`'s `Mul` for `&DMatrix<i64>`.
/// `nalgebra` panics when the shared dimension differs and, for `i64`, adds the
/// terms of each entry in `i64` arithmetic; the contract states the product entry
/// by entry, for operands whose entries cannot overflow.
#[verifier::external_body]
pub(crate) fn mat_mul(a: &Matrix, b: &Matrix) -> (p: Matrix)
    requires
        a.wf(),
        b.wf(),
        a.cols == b.rows,
        mul_fits(*a, *b),
    ensures
        p.wf(),
        p.rows == a.rows,
        p.cols == b.cols,
        forall|i: int, j: int|
            0 <= i < a.rows && 0 <= j < b.cols ==> #[trigger] p.at(i, j) == dot(
                *a,
                *b,
                i,
                j,
                a.cols as nat,
            ),
{
    let x = DMatrix::from_vec(a.rows, a.cols, a.data.clone());
    let y = DMatrix::from_vec(b.rows, b.cols, b.data.clone());
    let z = &x * &y;
    Matrix { rows: z.nrows(), cols: z.ncols(), data: z.as_slice().to_vec() }
}

/// The entrywise sum `a + b`, computed by `nalgebra`'s `Add` for `&DMatrix<i64>`,
/// which panics on operands of different shapes.
#[verifier::external_body]
pub(crate) fn mat_add(a: &Matrix, b: &Matrix) -> (s: Matrix)
    requires
        a.wf(),
        b.wf(),
        a.rows == b.rows,
        a.cols == b.cols,
        forall|i: int, j: int|
            0 <= i < a.rows && 0 <= j < a.cols ==> i64::MIN <= #[trigger] a.at(i, j) + b.at(i, j)
                <= i64::MAX,
    ensures
        s.wf(),
        s.rows == a.rows,
        s.cols == a.cols,
        forall|i: int, j: int|
            0 <= i < a.rows && 0 <= j < a.cols ==> #[trigger] s.at(i, j) == a.at(i, j) + b.at(i, j),
{
    let x = DMatrix::from_vec(a.rows, a.cols, a.data.clone());
    let y = DMatrix::from_vec(b.rows, b.cols, b.data.clone());
    let z = &x + &y;
    Matrix { rows: z.nrows(), cols: z.ncols(), data: z.as_slice().to_vec() }
}

/// The transpose, computed by `nalgebra`'s `Matrix::transpose`.
#[verifier::external_body]
pub(crate) fn mat_transpose(a: &Matrix) -> (t: Matrix)
    requires
        a.wf(),
    ensures
        t.wf(),
        t.rows == a.cols,
        t.cols == a.rows,
        forall|i: int, j: int| 0 <= i < a.cols && 0 <= j < a.rows ==> #[trigger] t.at(i, j) == a.at(j, i),
{
    let x = DMatrix::from_vec(a.rows, a.cols, a.data.clone());
    let z = x.transpose();
    Matrix { rows: z.nrows(), cols: z.ncols(), data: z.as_slice().to_vec() }
}

/// The scaled matrix `s * a`, computed by `nalgebra`'s `Mul<DMatrix<i64>>` for `i64`.
#[verifier::external_body]
pub(crate) fn mat_scale(s: i64, a: &Matrix) -> (r: Matrix)
    requires
        a.wf(),
        forall|i: int, j: int|
            0 <= i < a.rows && 0 <= j < a.cols ==> i64::MIN <= s * #[trigger] a.at(i, j) <= i64::MAX,
    ensures
        r.wf(),
        r.rows == a.rows,
        r.cols == a.cols,
        forall|i: int, j: int| 0 <= i < a.rows && 0 <= j < a.cols ==> #[trigger] r.at(i, j) == s * a.at(i, j),
{
    let x = DMatrix::from_vec(a.rows, a.cols, a.data.clone());
    let z = s * x;
    Matrix { rows: z.nrows(), cols: z.ncols(), data: z.as_slice().to_vec() }
}

/// Every entry reduced into `[0, q)`.
pub fn reduce_mod(a: &Matrix, q: i64) -> (r: Matrix)
    requires
        a.wf(),
        q > 0,
    ensures
        r.wf(),
        r.rows == a.rows,
        r.cols == a.cols,
        forall|i: int, j: int| 0 <= i < a.rows && 0 <= j < a.cols ==> #[trigger] r.at(i, j) == a.at(i, j) % (q as int),
{
    let n = a.data.len();
    let mut data: Vec<i64> = Vec::new();
    let mut k: usize = 0;
    while k < n
        invariant
            n == a.data.len(),
            k <= n,
            data.len() == k,
            q > 0,
            forall|i: int| 0 <= i < k ==> data@[i] as int == (a.data@[i] as int) % (q as int),
        decreases n - k,
    {
        data.push(rem_euclid(a.data[k], q));
        k += 1;
    }
    let r = Matrix { rows: a.rows, cols: a.cols, data };
    proof {
        assert forall|i: int, j: int| 0 <= i < a.rows && 0 <= j < a.cols implies #[trigger] r.at(i, j) == a.at(i, j) % (q as int) by {
            lemma_index(a.rows as int, a.cols as int, i, j);
        }
    }
    r
}

} // verus!
