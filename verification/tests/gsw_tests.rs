use gsw::gsw::gadget::{g_inverse, gadget_matrix};
use gsw::gsw::{
    decrypt, decrypt_bit_vector, decrypt_integer, encrypt, encrypt_bit_vector, encrypt_integer,
    encrypt_with_randomness, homomorphic_add, homomorphic_add_int, homomorphic_equal,
    homomorphic_mul, homomorphic_mul_int, keygen, keygen_from,
};
use gsw::matrix::{reduce_mod, Matrix};
use gsw::params::gsw::{L, M, N_COLS, N_LWE, Q};
use gsw::FheError;
use gsw::arith::rem_euclid;
use rand::thread_rng;

fn matrix_from_fn(rows: usize, cols: usize, f: impl Fn(usize, usize) -> i64) -> Matrix {
    let mut m = Matrix::zeros(rows, cols);
    for r in 0..rows {
        for c in 0..cols {
            m.set(r, c, f(r, c));
        }
    }
    m
}

#[test]
fn encrypt_decrypt_roundtrip() {
    let mut rng = thread_rng();
    for _ in 0..10 {
        let (v, a) = keygen(&mut rng);
        for m in 0..=1 {
            let c = encrypt(&a, m, &mut rng).unwrap();
            assert_eq!(decrypt(&v, &c), m);
        }
    }
}

#[test]
fn homomorphic_add_is_xor() {
    let mut rng = thread_rng();
    for _ in 0..5 {
        let (v, a) = keygen(&mut rng);
        for m1 in 0..=1 {
            for m2 in 0..=1 {
                let c = homomorphic_add(
                    &encrypt(&a, m1, &mut rng).unwrap(),
                    &encrypt(&a, m2, &mut rng).unwrap(),
                );
                assert_eq!(decrypt(&v, &c), m1 ^ m2);
            }
        }
    }
}

#[test]
fn homomorphic_mul_is_and() {
    let mut rng = thread_rng();
    let (v, a) = keygen(&mut rng);
    for m1 in 0..=1 {
        for m2 in 0..=1 {
            let c = homomorphic_mul(
                &encrypt(&a, m1, &mut rng).unwrap(),
                &encrypt(&a, m2, &mut rng).unwrap(),
            );
            assert_eq!(decrypt(&v, &c), m1 & m2);
        }
    }
}

#[test]
fn integer_roundtrip_add_and_mul() {
    let mut rng = thread_rng();
    let (v, a) = keygen(&mut rng);
    let c1 = encrypt_integer(&a, 13, &mut rng).unwrap();
    let c2 = encrypt_integer(&a, 14, &mut rng).unwrap();
    assert_eq!(decrypt_integer(&v, &c1), 13);
    assert_eq!(decrypt_integer(&v, &c2), 14);
    assert_eq!(decrypt_integer(&v, &homomorphic_add_int(&c1, &c2)), 27);
    assert_eq!(decrypt_integer(&v, &homomorphic_mul_int(&c1, &c2)), 182);
    let c3 = encrypt_integer(&a, -200, &mut rng).unwrap();
    assert_eq!(decrypt_integer(&v, &c3), -200);
    assert_eq!(decrypt_integer(&v, &homomorphic_add_int(&c1, &c3)), -187);
}

#[test]
fn encrypt_refuses_non_bits() {
    let mut rng = thread_rng();
    let (_v, a) = keygen(&mut rng);
    match encrypt(&a, 2, &mut rng) {
        Err(FheError::InvalidMessage { value, expected }) => {
            assert_eq!(value, 2);
            assert_eq!(expected, "0 or 1");
        }
        other => panic!("unexpected {:?}", other),
    }
    assert!(matches!(encrypt(&a, -1, &mut rng), Err(FheError::InvalidMessage { value: -1, .. })));
}

#[test]
fn encrypt_integer_refuses_large_values() {
    let mut rng = thread_rng();
    let (_v, a) = keygen(&mut rng);
    assert!(matches!(
        encrypt_integer(&a, 16384, &mut rng),
        Err(FheError::ValueOutOfRange { value: 16384, max_abs: 16384 })
    ));
    assert!(matches!(
        encrypt_integer(&a, -16384, &mut rng),
        Err(FheError::ValueOutOfRange { value: -16384, max_abs: 16384 })
    ));
    assert!(encrypt_integer(&a, 16383, &mut rng).is_ok());
}

#[test]
fn bit_vectors_and_equality() {
    let mut rng = thread_rng();
    let (v, a) = keygen(&mut rng);
    let vec1 = vec![1, 0, 1, 1];
    let vec2 = vec![1, 1, 0, 1];
    let c_vec1 = encrypt_bit_vector(&a, &vec1, &mut rng).unwrap();
    let c_vec2 = encrypt_bit_vector(&a, &vec2, &mut rng).unwrap();
    assert_eq!(decrypt_bit_vector(&v, &c_vec1), vec1);
    assert_eq!(decrypt_bit_vector(&v, &c_vec2), vec2);
    assert_eq!(decrypt(&v, &homomorphic_equal(&a, &c_vec1, &c_vec1, &mut rng).unwrap()), 1);
    assert_eq!(decrypt(&v, &homomorphic_equal(&a, &c_vec1, &c_vec2, &mut rng).unwrap()), 0);
    // An odd number of bits leaves one XNOR unpaired at the first level.
    let c3a = encrypt_bit_vector(&a, &[0, 1, 1], &mut rng).unwrap();
    let c3b = encrypt_bit_vector(&a, &[0, 1, 1], &mut rng).unwrap();
    assert_eq!(decrypt(&v, &homomorphic_equal(&a, &c3a, &c3b, &mut rng).unwrap()), 1);
}

#[test]
fn equality_refuses_vectors_of_different_lengths() {
    let mut rng = thread_rng();
    let (_v, a) = keygen(&mut rng);
    let c1 = encrypt_bit_vector(&a, &[1, 0], &mut rng).unwrap();
    let c2 = encrypt_bit_vector(&a, &[1], &mut rng).unwrap();
    assert!(matches!(
        homomorphic_equal(&a, &c1, &c2, &mut rng),
        Err(FheError::VectorLengthMismatch { len1: 2, len2: 1 })
    ));
}

#[test]
fn encrypt_bit_vector_stops_at_first_non_bit() {
    let mut rng = thread_rng();
    let (_v, a) = keygen(&mut rng);
    assert!(matches!(
        encrypt_bit_vector(&a, &[1, 0, 3, 7], &mut rng),
        Err(FheError::InvalidMessage { value: 3, .. })
    ));
    assert_eq!(encrypt_bit_vector(&a, &[], &mut rng).unwrap().len(), 0);
}

#[test]
fn gadget_matrix_holds_powers_of_two() {
    let g = gadget_matrix();
    assert_eq!((g.rows, g.cols), (N_LWE + 1, N_COLS));
    for i in 0..=N_LWE {
        for c in 0..N_COLS {
            let expected = if c >= i * L && c < i * L + L { 1i64 << (c - i * L) } else { 0 };
            assert_eq!(g.get(i, c), expected);
        }
    }
}

#[test]
fn g_inverse_is_binary_and_recomposes() {
    let c = matrix_from_fn(N_LWE + 1, N_COLS, |r, col| {
        ((r as i64 * 1_000_003 + col as i64 * 7_777) % (2 * Q)) - Q / 2
    });
    let z = g_inverse(&c);
    let g = gadget_matrix();
    assert_eq!((z.rows, z.cols), (N_COLS, N_COLS));
    for r in 0..N_COLS {
        for col in 0..N_COLS {
            let x = z.get(r, col);
            assert!(x == 0 || x == 1);
        }
    }
    for r in 0..=N_LWE {
        for col in 0..N_COLS {
            let mut s = 0i64;
            for k in 0..N_COLS {
                s += g.get(r, k) * z.get(k, col);
            }
            assert_eq!(s, c.get(r, col).rem_euclid(Q));
        }
    }
}

#[test]
fn keygen_from_builds_the_key_pair() {
    let s = matrix_from_fn(N_LWE, 1, |r, _| (r % 2) as i64);
    let b = matrix_from_fn(N_LWE, M, |r, c| ((r * 31 + c * 17) as i64 * 99_991) % Q);
    let e = matrix_from_fn(1, M, |_, c| (c as i64 % 3) - 1);
    let (v, a) = keygen_from(&s, &b, &e);
    for i in 0..N_LWE {
        assert_eq!(v.get(i, 0), (-s.get(i, 0)).rem_euclid(Q));
    }
    assert_eq!(v.get(N_LWE, 0), 1);
    for j in 0..M {
        let mut dot = e.get(0, j);
        for i in 0..N_LWE {
            assert_eq!(a.get(i, j), b.get(i, j));
            dot += s.get(i, 0) * b.get(i, j);
        }
        assert_eq!(a.get(N_LWE, j), dot.rem_euclid(Q));
    }
    // v is an approximate eigenvector: v^T A = e mod q.
    for j in 0..M {
        let mut x = 0i64;
        for i in 0..=N_LWE {
            x += v.get(i, 0) * a.get(i, j);
        }
        assert_eq!(x.rem_euclid(Q), e.get(0, j).rem_euclid(Q));
    }
}

#[test]
fn encrypt_with_randomness_is_ar_plus_mg() {
    let mut rng = thread_rng();
    let (v, a) = keygen(&mut rng);
    let r = matrix_from_fn(M, N_COLS, |i, j| ((i * 7 + j * 3) % 2) as i64);
    let g = gadget_matrix();
    for m in 0..=1 {
        let c = encrypt_with_randomness(&a, &r, m);
        for i in 0..=N_LWE {
            for j in 0..N_COLS {
                let mut x = m * g.get(i, j);
                for k in 0..M {
                    x += a.get(i, k) * r.get(k, j);
                }
                assert_eq!(c.get(i, j), x.rem_euclid(Q));
            }
        }
        assert_eq!(decrypt(&v, &gsw::gsw::BitCiphertext(c)), m);
    }
}

#[test]
fn reduce_mod_takes_euclidean_remainders() {
    let m = matrix_from_fn(2, 2, |r, c| [[-1, 5], [17, -20]][r][c]);
    let red = reduce_mod(&m, 7);
    assert_eq!(red.get(0, 0), 6);
    assert_eq!(red.get(0, 1), 5);
    assert_eq!(red.get(1, 0), 3);
    assert_eq!(red.get(1, 1), 1);
}

#[test]
fn matrix_zeros_get_set() {
    let mut m = Matrix::zeros(3, 2);
    assert_eq!(m.data.len(), 6);
    m.set(2, 1, 42);
    assert_eq!(m.get(2, 1), 42);
    assert_eq!(m.get(1, 1), 0);
    // Column-major storage: entry (2, 1) sits at 1 * 3 + 2.
    assert_eq!(m.data[5], 42);
}

#[test]
fn rem_euclid_is_nonnegative() {
    assert_eq!(rem_euclid(-1, 5), 4);
    assert_eq!(rem_euclid(12, 5), 2);
    assert_eq!(rem_euclid(i64::MIN, Q), 0);
}

#[test]
fn equality_on_short_vectors() {
    let mut rng = thread_rng();
    let (v, a) = keygen(&mut rng);
    let cases: Vec<(Vec<i64>, Vec<i64>)> = vec![
        (vec![1], vec![1]),
        (vec![0], vec![1]),
        (vec![0, 1], vec![0, 1]),
        (vec![1, 1], vec![1, 0]),
        (vec![1, 0, 0], vec![1, 0, 1]),
    ];
    for (b1, b2) in cases {
        let c1 = encrypt_bit_vector(&a, &b1, &mut rng).unwrap();
        let c2 = encrypt_bit_vector(&a, &b2, &mut rng).unwrap();
        let expected = if b1 == b2 { 1 } else { 0 };
        assert_eq!(decrypt(&v, &homomorphic_equal(&a, &c1, &c2, &mut rng).unwrap()), expected);
    }
}

#[test]
fn equality_of_empty_vectors_is_an_encryption_of_one() {
    let mut rng = thread_rng();
    let (v, a) = keygen(&mut rng);
    let empty: Vec<gsw::gsw::BitCiphertext> = Vec::new();
    let c = homomorphic_equal(&a, &empty, &empty, &mut rng).unwrap();
    assert_eq!(decrypt(&v, &c), 1);
}
