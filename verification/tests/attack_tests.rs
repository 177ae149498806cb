use gsw::attack::lattice_basis;
use gsw::matrix::Matrix;
use gsw::params::gsw::{M, N_LWE, Q};

#[test]
fn lattice_basis_is_kannans_embedding() {
    let mut a = Matrix::zeros(N_LWE + 1, M);
    for r in 0..=N_LWE {
        for c in 0..M {
            a.set(r, c, (r * 100 + c) as i64);
        }
    }
    let basis = lattice_basis(&a);
    let w = M + N_LWE + 1;
    assert_eq!(basis.len(), w);
    for row in &basis {
        assert_eq!(row.len(), w);
    }
    // The q-ary rows.
    for i in 0..M {
        for c in 0..w {
            assert_eq!(basis[i][c], if c == i { Q } else { 0 });
        }
    }
    // One row per secret coordinate.
    for i in 0..N_LWE {
        for c in 0..M {
            assert_eq!(basis[M + i][c], (i * 100 + c) as i64);
        }
        for c in M..w {
            assert_eq!(basis[M + i][c], if c == M + i { 1 } else { 0 });
        }
    }
    // The negated last row of the key and the embedding coordinate.
    for c in 0..M {
        assert_eq!(basis[M + N_LWE][c], -((N_LWE * 100 + c) as i64));
    }
    assert_eq!(basis[M + N_LWE][M + N_LWE], 1);
    assert_eq!(basis[M + N_LWE][M], 0);
}
