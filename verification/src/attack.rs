//! The lattice of Kannan's embedding for an attack on the LWE public key: the rows
//! that a lattice-reduction script is given.
use vstd::prelude::*;
use crate::matrix::Matrix;
use crate::params::gsw::{M, N_LWE, Q};
use crate::arith::{sum, lemma_sum_ext, lemma_sum_single, lemma_sum_split};

verus! {

/// Entry `(r, c)` of the embedding basis for the public key `a`: `q` on the
/// diagonal of the first `M` rows; then a row per secret coordinate `i` holding
/// row `i` of `a` followed by a `1` at column `M + i`; and a last row holding the
/// negated last row of `a` followed by a `1` at column `M + n`.
pub open spec fn basis_entry(a: Matrix, r: int, c: int) -> int {
    if r < M {
        if c == r { Q as int } else { 0 }
    } else if r < M + N_LWE {
        if c < M { a.at(r - M, c) } else if c == r { 1 } else { 0 }
    } else {
        if c < M { -a.at(N_LWE as int, c) } else if c == M + N_LWE { 1 } else { 0 }
    }
}

/// `w = (x, y, z)`, with `x` of length `M`, `y` of length `n` and `z` a scalar,
/// lies in the embedding lattice of the public key `a = [B; b]`:
/// `x = y^T B - z b` modulo `q` at every one of the `M` coordinates.
pub open spec fn in_embedding_lattice(a: Matrix, w: spec_fn(int) -> int) -> bool {
    forall|j: int|
        0 <= j < M ==> (w(j) - sum(|i: int| w(M + i) * a.at(i, j), N_LWE as nat) + w(M + N_LWE) * a.at(
            N_LWE as int,
            j,
        )) % (Q as int) == 0
}

/// Row `r` of the embedding basis, as a function of the column.
pub open spec fn basis_row(a: Matrix, r: int) -> spec_fn(int) -> int {
    |c: int| basis_entry(a, r, c)
}

/// Kannan's embedding basis: every row lies in the embedding lattice; the first
/// `M` rows are `q` times the unit vectors of the `x` part; and the last `n + 1`
/// columns of the rows from `M` on form the identity, so that row `M + i` has
/// `y = e_i, z = 0` and the last row has `y = 0, z = 1`. A lattice vector
/// `(x, y, z)` is then `y` and `z` times those rows plus multiples of the `q`
/// rows: the rows generate exactly the embedding lattice.
pub proof fn lattice_basis_is_kannan(a: Matrix)
    ensures
        forall|r: int| 0 <= r < M + N_LWE + 1 ==> in_embedding_lattice(a, #[trigger] basis_row(a, r)),
        forall|r: int, c: int|
            0 <= r < M + N_LWE + 1 && M <= c < M + N_LWE + 1 ==> #[trigger] basis_entry(a, r, c) == if r == c {
                1int
            } else {
                0int
            },
        forall|r: int, c: int|
            0 <= r < M && 0 <= c < M ==> #[trigger] basis_entry(a, r, c) == if r == c { Q as int } else { 0int },
{
    let q = Q as int;
    assert forall|r: int| 0 <= r < M + N_LWE + 1 implies in_embedding_lattice(a, #[trigger] basis_row(a, r)) by {
        let w = basis_row(a, r);
        assert forall|j: int| 0 <= j < M implies (w(j) - sum(|i: int| w(M + i) * a.at(i, j), N_LWE as nat) + w(
            M + N_LWE,
        ) * a.at(N_LWE as int, j)) % q == 0 by {
            let f = |i: int| w(M + i) * a.at(i, j);
            if r < M {
                assert forall|i: int| 0 <= i < N_LWE implies #[trigger] f(i) == 0 by {}
                lemma_sum_single(f, N_LWE as nat, 0);
                assert(f(0) == 0);
                if r == j {
                    assert(w(j) == q);
                    vstd::arithmetic::div_mod::lemma_mod_self_0(q);
                } else {
                    assert(w(j) == 0);
                }
            } else if r < M + N_LWE {
                let i0 = r - M;
                assert forall|i: int| 0 <= i < N_LWE && i != i0 implies #[trigger] f(i) == 0 by {}
                lemma_sum_single(f, N_LWE as nat, i0);
                assert(f(i0) == a.at(i0, j));
                assert(w(j) == a.at(i0, j));
            } else {
                assert forall|i: int| 0 <= i < N_LWE implies #[trigger] f(i) == 0 by {}
                lemma_sum_single(f, N_LWE as nat, 0);
                assert(f(0) == 0);
                assert(w(j) == -a.at(N_LWE as int, j));
            }
        }
    }
}

/// `y^T B - z b` at coordinate `j`: the `x` part that the lattice asks of `w`
/// modulo `q`.
pub open spec fn embedding_head(a: Matrix, w: spec_fn(int) -> int, j: int) -> int {
    sum(|i: int| w(M + i) * a.at(i, j), N_LWE as nat) - w(M + N_LWE) * a.at(N_LWE as int, j)
}

/// The integer coefficients that write a lattice vector `w` in the basis rows:
/// `(x_r - head_r) / q` on the `q` rows and `w_r` on the others.
pub open spec fn basis_coefficients(a: Matrix, w: spec_fn(int) -> int) -> spec_fn(int) -> int {
    |r: int| if r < M { (w(r) - embedding_head(a, w, r)) / (Q as int) } else { w(r) }
}

/// The basis generates the whole embedding lattice: every vector `w` of it is the
/// integer combination `sum_r k_r row_r` of the basis rows, with the
/// coefficients `k = basis_coefficients(a, w)`.
pub proof fn lattice_basis_generates(a: Matrix, w: spec_fn(int) -> int)
    requires
        in_embedding_lattice(a, w),
    ensures
        forall|c: int|
            0 <= c < M + N_LWE + 1 ==> #[trigger] w(c) == sum(
                |r: int| basis_coefficients(a, w)(r) * basis_entry(a, r, c),
                (M + N_LWE + 1) as nat,
            ),
{
    let q = Q as int;
    let k = basis_coefficients(a, w);
    assert forall|c: int| 0 <= c < M + N_LWE + 1 implies #[trigger] w(c) == sum(
        |r: int| basis_coefficients(a, w)(r) * basis_entry(a, r, c),
        (M + N_LWE + 1) as nat,
    ) by {
        let g = |r: int| k(r) * basis_entry(a, r, c);
        lemma_sum_ext(|r: int| basis_coefficients(a, w)(r) * basis_entry(a, r, c), g, (M + N_LWE + 1) as nat);
        lemma_sum_split(g, M as nat, (N_LWE + 1) as nat);
        let tail = |i: int| g(M + i);
        if c >= M {
            assert forall|r: int| 0 <= r < M && r != 0 implies #[trigger] g(r) == 0 by {}
            lemma_sum_single(g, M as nat, 0);
            assert(g(0) == k(0) * 0);
            let i0 = c - M;
            assert forall|i: int| 0 <= i < N_LWE + 1 && i != i0 implies #[trigger] tail(i) == 0 by {
                assert(basis_entry(a, M + i, c) == 0);
            }
            lemma_sum_single(tail, (N_LWE + 1) as nat, i0);
            assert(tail(i0) == w(c) * 1);
        } else {
            assert forall|r: int| 0 <= r < M && r != c implies #[trigger] g(r) == 0 by {
                assert(basis_entry(a, r, c) == 0);
            }
            lemma_sum_single(g, M as nat, c);
            let hd = embedding_head(a, w, c);
            assert(g(c) == ((w(c) - hd) / q) * q);
            lemma_sum_split(tail, N_LWE as nat, 1);
            assert(sum(|i: int| tail(N_LWE + i), 1) == sum(|i: int| tail(N_LWE + i), 0) + tail(N_LWE + 0));
            assert(tail(N_LWE as int) == w(M + N_LWE) * (-a.at(N_LWE as int, c)));
            assert forall|i: int| 0 <= i < N_LWE implies #[trigger] tail(i) == w(M + i) * a.at(i, c) by {
                assert(basis_entry(a, M + i, c) == a.at(i, c));
            }
            lemma_sum_ext(tail, |i: int| w(M + i) * a.at(i, c), N_LWE as nat);
            assert(w(M + N_LWE) * (-a.at(N_LWE as int, c)) == -(w(M + N_LWE) * a.at(N_LWE as int, c)))
                by (nonlinear_arith);
            assert((w(c) - hd) % q == 0);
            vstd::arithmetic::div_mod::lemma_fundamental_div_mod(w(c) - hd, q);
            vstd::arithmetic::mul::lemma_mul_is_commutative(q, (w(c) - hd) / q);
        }
    }
}

/// A stored row as a function of the column.
pub open spec fn row_fn(row: Seq<i64>) -> spec_fn(int) -> int {
    |c: int| row[c] as int
}

/// Membership in the embedding lattice reads only the `M + n + 1` coordinates.
proof fn lemma_lattice_ext(a: Matrix, w1: spec_fn(int) -> int, w2: spec_fn(int) -> int)
    requires
        in_embedding_lattice(a, w1),
        forall|c: int| 0 <= c < M + N_LWE + 1 ==> #[trigger] w1(c) == w2(c),
    ensures
        in_embedding_lattice(a, w2),
{
    assert forall|j: int| 0 <= j < M implies (w2(j) - sum(|i: int| w2(M + i) * a.at(i, j), N_LWE as nat) + w2(
        M + N_LWE,
    ) * a.at(N_LWE as int, j)) % (Q as int) == 0 by {
        assert(w1(j) == w2(j));
        assert(w1(M + N_LWE) == w2(M + N_LWE));
        assert forall|i: int| 0 <= i < N_LWE implies #[trigger] (w1(M + i) * a.at(i, j)) == w2(M + i) * a.at(i, j) by {
            assert(w1(M + i) == w2(M + i));
        }
        lemma_sum_ext(|i: int| w1(M + i) * a.at(i, j), |i: int| w2(M + i) * a.at(i, j), N_LWE as nat);
    }
}

/// The `M + n + 1` rows, each of length `M + n + 1`, of the embedding basis.
pub fn lattice_basis(a: &Matrix) -> (basis: Vec<Vec<i64>>)
    requires
        a.wf(),
        a.rows >= N_LWE + 1,
        a.cols >= M,
        forall|c: int| 0 <= c < M ==> #[trigger] a.at(N_LWE as int, c) > i64::MIN,
    ensures
        basis@.len() == M + N_LWE + 1,
        forall|r: int| 0 <= r < M + N_LWE + 1 ==> (#[trigger] basis@[r])@.len() == M + N_LWE + 1,
        forall|r: int, c: int|
            0 <= r < M + N_LWE + 1 && 0 <= c < M + N_LWE + 1 ==> #[trigger] basis@[r]@[c]
                == basis_entry(*a, r, c),
        forall|r: int| 0 <= r < M + N_LWE + 1 ==> in_embedding_lattice(*a, row_fn(#[trigger] basis@[r]@)),
        forall|r: int, c: int|
            0 <= r < M + N_LWE + 1 && M <= c < M + N_LWE + 1 ==> #[trigger] basis@[r]@[c] as int == if r == c {
                1int
            } else {
                0int
            },
        forall|r: int, c: int|
            0 <= r < M && 0 <= c < M ==> #[trigger] basis@[r]@[c] as int == if r == c { Q as int } else { 0int },
{
    let width = M + N_LWE + 1;
    let mut basis: Vec<Vec<i64>> = Vec::new();
    let mut r: usize = 0;
    while r < width
        invariant
            width == M + N_LWE + 1,
            r <= width,
            a.wf(),
            a.rows >= N_LWE + 1,
            a.cols >= M,
            forall|c: int| 0 <= c < M ==> #[trigger] a.at(N_LWE as int, c) > i64::MIN,
            basis@.len() == r,
            forall|r2: int| 0 <= r2 < r ==> (#[trigger] basis@[r2])@.len() == width,
            forall|r2: int, c: int|
                0 <= r2 < r && 0 <= c < width ==> #[trigger] basis@[r2]@[c] == basis_entry(*a, r2, c),
        decreases width - r,
    {
        let mut row: Vec<i64> = Vec::new();
        let mut c: usize = 0;
        while c < width
            invariant
                width == M + N_LWE + 1,
                r < width,
                c <= width,
                a.wf(),
                a.rows >= N_LWE + 1,
                a.cols >= M,
                forall|c: int| 0 <= c < M ==> #[trigger] a.at(N_LWE as int, c) > i64::MIN,
                row@.len() == c,
                forall|c2: int| 0 <= c2 < c ==> #[trigger] row@[c2] == basis_entry(*a, r as int, c2),
            decreases width - c,
        {
            let x: i64 = if r < M {
                if c == r { Q } else { 0 }
            } else if r < M + N_LWE {
                if c < M { a.get(r - M, c) } else if c == r { 1 } else { 0 }
            } else {
                if c < M { -a.get(N_LWE, c) } else if c == M + N_LWE { 1 } else { 0 }
            };
            row.push(x);
            c += 1;
        }
        basis.push(row);
        r += 1;
    }
    proof {
        lattice_basis_is_kannan(*a);
        assert forall|r: int| 0 <= r < M + N_LWE + 1 implies in_embedding_lattice(*a, row_fn(#[trigger] basis@[r]@)) by {
            assert(in_embedding_lattice(*a, basis_row(*a, r)));
            assert forall|c: int| 0 <= c < M + N_LWE + 1 implies #[trigger] basis_row(*a, r)(c) == row_fn(basis@[r]@)(c) by {
                assert(basis@[r]@[c] == basis_entry(*a, r, c));
            }
            lemma_lattice_ext(*a, basis_row(*a, r), row_fn(basis@[r]@));
        }
    }
    basis
}

} // verus!
