//! The gadget matrix `G` of powers of two and its bit-decomposition inverse.
use vstd::prelude::*;
use vstd::arithmetic::power2::*;
use vstd::arithmetic::div_mod::*;
use crate::matrix::Matrix;
use crate::arith::rem_euclid;
use crate::params::gsw::{N_LWE, Q, L, N_COLS};

verus! {

/// Entry `(i, c)` of the gadget matrix: `2^j` where `c = i * L + j` with `j < L`,
/// and `0` elsewhere.
pub open spec fn gadget_entry(i: int, c: int) -> int {
    if L * i <= c < L * i + L {
        pow2((c - L * i) as nat) as int
    } else {
        0
    }
}

/// Entry `(r, c)` of the bit decomposition of `m`: bit `r % L` of entry
/// `(r / L, c)` of `m` reduced modulo `q`.
pub open spec fn ginv_entry(m: Matrix, r: int, c: int) -> int {
    ((m.at(r / (L as int), c) % (Q as int)) / (pow2((r % (L as int)) as nat) as int)) % 2
}

/// The `(n + 1) x N_COLS` gadget matrix: row `i` holds `1, 2, 4, ..., 2^(L-1)` in
/// columns `i * L .. i * L + L` and zeros elsewhere.
pub fn gadget_matrix() -> (g: Matrix)
    ensures
        g.wf(),
        g.rows == N_LWE + 1,
        g.cols == N_COLS,
        forall|i: int, c: int|
            0 <= i < g.rows && 0 <= c < g.cols ==> #[trigger] g.at(i, c) == gadget_entry(i, c),
{
    let mut g = Matrix::zeros(N_LWE + 1, N_COLS);
    let mut i: usize = 0;
    while i <= N_LWE
        invariant
            i <= N_LWE + 1,
            g.wf(),
            g.rows == N_LWE + 1,
            g.cols == N_COLS,
            forall|r: int, c: int|
                0 <= r < g.rows && 0 <= c < g.cols ==> #[trigger] g.at(r, c) == if r < i {
                    gadget_entry(r, c)
                } else {
                    0
                },
        decreases N_LWE + 1 - i,
    {
        let mut p: i64 = 1;
        let mut j: usize = 0;
        proof {
            lemma2_to64();
        }
        while j < L
            invariant
                i <= N_LWE,
                j <= L,
                p == pow2(j as nat),
                g.wf(),
                g.rows == N_LWE + 1,
                g.cols == N_COLS,
                forall|r: int, c: int|
                    0 <= r < g.rows && 0 <= c < g.cols ==> #[trigger] g.at(r, c) == if r < i || (
                    r == i && c < L * i + j) {
                        gadget_entry(r, c)
                    } else {
                        0
                    },
            decreases L - j,
        {
            g.set(i, i * L + j, p);
            proof {
                lemma_pow2_unfold((j + 1) as nat);
                lemma_pow2_strictly_increases(j as nat, 24);
                lemma2_to64();
            }
            p = p * 2;
            j += 1;
        }
        i += 1;
    }
    g
}

/// The bit decomposition `G^-1(c)`: an `N_COLS x N_COLS` matrix of bits whose entry
/// `(i * L + j, col)` is bit `j` of entry `(i, col)` of `c` reduced modulo `q`.
pub fn g_inverse(c: &Matrix) -> (z: Matrix)
    requires
        c.wf(),
        c.rows >= N_LWE + 1,
        c.cols >= N_COLS,
    ensures
        z.wf(),
        z.rows == N_COLS,
        z.cols == N_COLS,
        forall|r: int, col: int|
            0 <= r < N_COLS && 0 <= col < N_COLS ==> #[trigger] z.at(r, col) == ginv_entry(
                *c,
                r,
                col,
            ),
{
    let mut z = Matrix::zeros(N_COLS, N_COLS);
    let mut col: usize = 0;
    while col < N_COLS
        invariant
            col <= N_COLS,
            c.wf(),
            c.rows >= N_LWE + 1,
            c.cols >= N_COLS,
            z.wf(),
            z.rows == N_COLS,
            z.cols == N_COLS,
            forall|r: int, cc: int|
                0 <= r < N_COLS && 0 <= cc < N_COLS ==> #[trigger] z.at(r, cc) == if cc < col {
                    ginv_entry(*c, r, cc)
                } else {
                    0
                },
        decreases N_COLS - col,
    {
        let mut row: usize = 0;
        while row <= N_LWE
            invariant
                col < N_COLS,
                row <= N_LWE + 1,
                c.wf(),
                c.rows >= N_LWE + 1,
                c.cols >= N_COLS,
                z.wf(),
                z.rows == N_COLS,
                z.cols == N_COLS,
                forall|r: int, cc: int|
                    0 <= r < N_COLS && 0 <= cc < N_COLS ==> #[trigger] z.at(r, cc) == if cc < col
                        || (cc == col && r < L * row) {
                        ginv_entry(*c, r, cc)
                    } else {
                        0
                    },
            decreases N_LWE + 1 - row,
        {
            let v0 = rem_euclid(c.get(row, col), Q);
            let mut val = v0;
            let mut j: usize = 0;
            proof {
                lemma2_to64();
            }
            while j < L
                invariant
                    col < N_COLS,
                    row <= N_LWE,
                    j <= L,
                    0 <= v0,
                    v0 as int == c.at(row as int, col as int) % (Q as int),
                    val as int == (v0 as int) / (pow2(j as nat) as int),
                    c.wf(),
                    c.rows >= N_LWE + 1,
                    c.cols >= N_COLS,
                    z.wf(),
                    z.rows == N_COLS,
                    z.cols == N_COLS,
                    forall|r: int, cc: int|
                        0 <= r < N_COLS && 0 <= cc < N_COLS ==> #[trigger] z.at(r, cc) == if cc
                            < col || (cc == col && r < L * row + j) {
                            ginv_entry(*c, r, cc)
                        } else {
                            0
                        },
                decreases L - j,
            {
                proof {
                    lemma_pow2_pos(j as nat);
                    lemma_div_pos_is_pos(v0 as int, pow2(j as nat) as int);
                }
                let bit = val & 1;
                proof {
                    assert(val & 1 == val % 2) by (bit_vector)
                        requires
                            val >= 0,
                    ;
                    assert((L * row + j) / (L as int) == row as int);
                    assert((L * row + j) % (L as int) == j as int);
                }
                z.set(row * L + j, col, bit);
                proof {
                    assert(val >> 1 == val / 2) by (bit_vector)
                        requires
                            val >= 0,
                    ;
                    lemma_pow2_unfold((j + 1) as nat);
                    lemma_div_denominator(v0 as int, pow2(j as nat) as int, 2);
                }
                val = val >> 1;
                j += 1;
            }
            row += 1;
        }
        col += 1;
    }
    z
}

} // verus!
