use gsw::params::rgsw::{L, M, N, Q, T};
use gsw::rgsw::{
    decode_slots, decrypt, decrypt_integer, decrypt_integer_poly, decrypt_poly, encode_slots,
    encrypt, encrypt_integer, encrypt_integer_poly, encrypt_poly, g_inverse, homomorphic_add,
    homomorphic_mul, keygen, Poly, PolyMatrix,
};
use gsw::FheError;
use rand::thread_rng;

fn monomial(k: usize, c: i64) -> Poly {
    let mut p = Poly::zero();
    p.coefs[k] = c;
    p
}

#[test]
fn rgsw_bit_roundtrip_add_and_mul() {
    let mut rng = thread_rng();
    let (v, a) = keygen(&mut rng);
    for m1 in 0..=1 {
        let c1 = encrypt(&a, m1, &mut rng).unwrap();
        assert_eq!(decrypt(&v, &c1), m1);
        for m2 in 0..=1 {
            let c2 = encrypt(&a, m2, &mut rng).unwrap();
            assert_eq!(decrypt(&v, &homomorphic_add(&c1, &c2)), m1 ^ m2);
            assert_eq!(decrypt(&v, &homomorphic_mul(&c1, &c2)), m1 & m2);
        }
    }
}

#[test]
fn rgsw_refuses_bad_messages() {
    let mut rng = thread_rng();
    let (_v, a) = keygen(&mut rng);
    assert!(matches!(
        encrypt(&a, 5, &mut rng),
        Err(FheError::InvalidMessage { value: 5, expected: "0 or 1" })
    ));
    assert!(matches!(
        encrypt_integer(&a, 131072, &mut rng),
        Err(FheError::ValueOutOfRange { value: 131072, max_abs: 131072 })
    ));
    assert!(matches!(
        encrypt_integer(&a, -131073, &mut rng),
        Err(FheError::ValueOutOfRange { value: -131073, max_abs: 131072 })
    ));
}

#[test]
fn rgsw_integers() {
    let mut rng = thread_rng();
    let (v, a) = keygen(&mut rng);
    let c1 = encrypt_integer(&a, 13, &mut rng).unwrap();
    let c2 = encrypt_integer(&a, 14, &mut rng).unwrap();
    assert_eq!(decrypt_integer(&v, &c1), 13);
    assert_eq!(decrypt_integer(&v, &homomorphic_add(&c1, &c2)), 27);
    assert_eq!(decrypt_integer(&v, &homomorphic_mul(&c1, &c2)), 182);
    let c3 = encrypt_integer(&a, -9, &mut rng).unwrap();
    assert_eq!(decrypt_integer(&v, &c3), -9);
}

#[test]
fn rgsw_packed_bits() {
    let mut rng = thread_rng();
    let (v, a) = keygen(&mut rng);
    let mut m_poly = Poly::zero();
    m_poly.coefs[0] = 1;
    m_poly.coefs[2] = 1;
    m_poly.coefs[3] = 1;
    let c = encrypt_poly(&a, &m_poly, &mut rng);
    assert_eq!(decrypt_poly(&v, &c), m_poly);
}

#[test]
fn crt_slots_roundtrip_and_elementwise_ops() {
    let mut rng = thread_rng();
    let (v, a) = keygen(&mut rng);
    let mut slots1 = [0i64; N];
    let mut slots2 = [0i64; N];
    slots1[0] = 5;
    slots1[1] = 12;
    slots1[2] = -4;
    slots1[3] = 7;
    slots2[0] = 4;
    slots2[1] = 3;
    slots2[2] = 2;
    slots2[3] = -2;
    let p1 = encode_slots(&slots1);
    let p2 = encode_slots(&slots2);
    assert_eq!(decode_slots(&p1), slots1);
    assert_eq!(decode_slots(&p2), slots2);
    for k in 0..N {
        assert!(p1.coefs[k].abs() <= T / 2);
    }
    let c1 = encrypt_integer_poly(&a, &p1, &mut rng);
    let c2 = encrypt_integer_poly(&a, &p2, &mut rng);
    let sum = decode_slots(&decrypt_integer_poly(&v, &homomorphic_add(&c1, &c2)));
    assert_eq!(&sum[..4], &[9, 15, -2, 5]);
    let prod = decode_slots(&decrypt_integer_poly(&v, &homomorphic_mul(&c1, &c2)));
    assert_eq!(&prod[..4], &[20, 36, -8, -14]);
    assert_eq!(&prod[4..], &[0i64; N - 4]);
}

#[test]
fn crt_slots_wrap_modulo_t() {
    let mut slots = [0i64; N];
    slots[0] = 50;
    slots[1] = -49;
    slots[2] = 97;
    let back = decode_slots(&encode_slots(&slots));
    assert_eq!(back[0], 50 - T);
    assert_eq!(back[1], T - 49);
    assert_eq!(back[2], 0);
}

#[test]
fn poly_arithmetic() {
    assert_eq!(Poly::zero().coefs, [0i64; N]);
    assert_eq!(Poly::from_scalar(-1), monomial(0, Q - 1));
    assert_eq!(Poly::from_scalar(Q + 3), monomial(0, 3));
    let x = monomial(1, 1);
    let x15 = monomial(15, 1);
    // X * X^15 = X^16 = -1 in Z_q[X]/(X^16 + 1).
    assert_eq!(x.mul(&x15), monomial(0, Q - 1));
    assert_eq!(monomial(2, 3).mul(&monomial(5, 4)), monomial(7, 12));
    assert_eq!(monomial(2, Q - 1).add(&monomial(2, 3)), monomial(2, 2));
    assert_eq!(monomial(4, 5).scalar_mul(-2), monomial(4, Q - 10));
    let mut p = Poly::zero();
    let mut q = Poly::zero();
    for i in 0..N {
        p.coefs[i] = (i as i64 * 1_234_567) % Q;
        q.coefs[i] = (i as i64 % 3) - 1;
    }
    assert_eq!(p.mul(&q), q.mul(&p));
}

#[test]
fn poly_random_draws_stay_in_range() {
    let mut rng = thread_rng();
    let u = Poly::rand_mod_q(&mut rng);
    let b = Poly::rand_binary(&mut rng);
    let e = Poly::rand_noise(&mut rng);
    for k in 0..N {
        assert!(u.coefs[k] >= 0 && u.coefs[k] < Q);
        assert!(b.coefs[k] == 0 || b.coefs[k] == 1);
        assert!(e.coefs[k] >= -1 && e.coefs[k] <= 1);
    }
}

#[test]
fn poly_matrix_operations() {
    let mut m = PolyMatrix::zeros(2, 3);
    assert_eq!(m.data.len(), 6);
    *m.get_mut(1, 2) = monomial(0, 7);
    *m.get_mut(0, 1) = monomial(1, 2);
    assert_eq!(*m.get(1, 2), monomial(0, 7));
    assert_eq!(m.data[5], monomial(0, 7));
    let t = m.transpose();
    assert_eq!((t.rows, t.cols), (3, 2));
    assert_eq!(*t.get(2, 1), monomial(0, 7));
    assert_eq!(*t.get(1, 0), monomial(1, 2));
    let s = m.add(&m);
    assert_eq!(*s.get(1, 2), monomial(0, 14));
    // (2 x 3) * (3 x 2)
    let p = m.mul(&t);
    assert_eq!((p.rows, p.cols), (2, 2));
    assert_eq!(*p.get(0, 0), monomial(2, 4));
    assert_eq!(*p.get(1, 1), monomial(0, 49));
    assert_eq!(*p.get(0, 1), Poly::zero());
}

#[test]
fn rgsw_g_inverse_bits() {
    let mut c = PolyMatrix::zeros(2, 2 * L);
    for r in 0..2 {
        for col in 0..2 * L {
            let mut p = Poly::zero();
            for d in 0..N {
                p.coefs[d] = ((r * 977 + col * 131 + d * 17) as i64 * 104_729_321) % Q;
            }
            *c.get_mut(r, col) = p;
        }
    }
    let z = g_inverse(&c);
    assert_eq!((z.rows, z.cols), (2 * L, 2 * L));
    for r in 0..2 {
        for col in 0..2 * L {
            for d in 0..N {
                let mut x = 0i64;
                for l in 0..L {
                    let bit = z.get(r * L + l, col).coefs[d];
                    assert!(bit == 0 || bit == 1);
                    x += bit << l;
                }
                assert_eq!(x, c.get(r, col).coefs[d]);
            }
        }
    }
}

#[test]
fn rgsw_keygen_shapes() {
    let mut rng = thread_rng();
    let (v, a) = keygen(&mut rng);
    assert_eq!((v.rows, v.cols), (2, 1));
    assert_eq!((a.rows, a.cols), (M, 2));
    assert_eq!(*v.get(1, 0), monomial(0, 1));
    // v is an approximate eigenvector: each row (a_i, a_i s + e_i) has a_i s + e_i - a_i s small.
    let minus_s = v.get(0, 0);
    for i in 0..M {
        let noise = a.get(i, 0).mul(minus_s).add(a.get(i, 1));
        for k in 0..N {
            let x = noise.coefs[k];
            assert!(x <= 1 || x >= Q - 1);
        }
    }
}

#[test]
fn poly_mul_is_associative() {
    let mut a = Poly::zero();
    let mut b = Poly::zero();
    let mut c = Poly::zero();
    for i in 0..N {
        a.coefs[i] = (i as i64 * 987_654_321) % Q;
        b.coefs[i] = (i as i64 * 123_456_789 + 5) % Q;
        c.coefs[i] = ((i * i) as i64 * 31_415_926) % Q;
    }
    assert_eq!(a.mul(&b).mul(&c), a.mul(&b.mul(&c)));
}

#[test]
fn rgsw_packed_add_is_coefficientwise_xor() {
    let mut rng = thread_rng();
    let (v, a) = keygen(&mut rng);
    let mut p1 = Poly::zero();
    let mut p2 = Poly::zero();
    for k in 0..N {
        p1.coefs[k] = (k % 2) as i64;
        p2.coefs[k] = ((k / 2) % 2) as i64;
    }
    let c1 = encrypt_poly(&a, &p1, &mut rng);
    let c2 = encrypt_poly(&a, &p2, &mut rng);
    let sum = homomorphic_add(
        &gsw::rgsw::RgswBitCiphertext(c1.0.clone()),
        &gsw::rgsw::RgswBitCiphertext(c2.0.clone()),
    );
    let dec = decrypt_poly(&v, &gsw::rgsw::RgswPolyCiphertext(sum.0));
    for k in 0..N {
        assert_eq!(dec.coefs[k], p1.coefs[k] ^ p2.coefs[k]);
    }
}
