use gsw::bootstrapping::lwe::{
    extracted_lwe_key, lwe_decode_value, lwe_decrypt, lwe_phase_mod_q, test_polynomial,
};
use gsw::bootstrapping::{bootstrap, generate_bootstrapping_key, multiply_by_x_power};
use gsw::params::rgsw::{L, M, N, Q};
use gsw::rgsw::{encrypt_poly, encrypt_with_randomness, keygen, keygen_from, Poly, PolyMatrix};
use rand::thread_rng;

#[test]
fn test_polynomial_is_three_quarters_in_the_middle() {
    let p = test_polynomial();
    for i in 0..N {
        let expected = if (4..=12).contains(&i) { Q - Q / 4 } else { 0 };
        assert_eq!(p.coefs[i], expected);
    }
    assert_eq!(p.coefs[4], 25769803776);
}

#[test]
fn test_polynomial_turned_gives_quarter_codes() {
    let p = test_polynomial();
    assert_eq!(multiply_by_x_power(&p, 8).coefs[0], Q / 4);
    assert_eq!(multiply_by_x_power(&p, 4).coefs[0], Q / 4);
    assert_eq!(multiply_by_x_power(&p, 0).coefs[0], 0);
    assert_eq!(multiply_by_x_power(&p, 3).coefs[0], 0);
    assert_eq!(multiply_by_x_power(&p, 24).coefs[0], Q - Q / 4);
    assert_eq!(multiply_by_x_power(&p, -8).coefs[0], Q - Q / 4);
}

#[test]
fn extracted_key_reverses_and_negates() {
    let mut v0 = Poly::zero();
    for i in 0..N {
        v0.coefs[i] = i as i64 + 1;
    }
    v0.coefs[0] = -5;
    let k = extracted_lwe_key(&v0);
    assert_eq!(k.len(), N);
    assert_eq!(k[0], 5);
    assert_eq!(k[1], 16);
    assert_eq!(k[15], 2);
    let z = extracted_lwe_key(&Poly::zero());
    assert_eq!(z, vec![0; N]);
}

#[test]
fn lwe_phase_and_decoding() {
    let a = vec![1i64; N];
    let key = vec![2i64; N];
    // 5 - 16 * 2 = -27, modulo q.
    assert_eq!(lwe_phase_mod_q(&a, 5, &key), Q - 27);
    assert_eq!(lwe_decode_value(0), 0);
    assert_eq!(lwe_decode_value(Q / 4), 1);
    assert_eq!(lwe_decode_value(Q / 4 + 1000), 1);
    assert_eq!(lwe_decode_value(Q - Q / 4), 0);
    assert_eq!(lwe_decode_value(Q - 5), 0);
    assert_eq!(lwe_decrypt(&a, Q / 4 + 32, &key), 1);
    assert_eq!(lwe_decrypt(&a, 32, &key), 0);
}

#[test]
fn bootstrapping_recovers_both_messages() {
    let mut rng = thread_rng();
    let (v, a_rgsw) = keygen(&mut rng);
    let lwe_sk = vec![1i64, 0, 1, 1];
    let bk = generate_bootstrapping_key(&a_rgsw, &lwe_sk, &mut rng);
    let acc = encrypt_poly(&a_rgsw, &test_polynomial(), &mut rng);
    let ext_sk = extracted_lwe_key(v.get(0, 0));
    let a = vec![3i64, 7, 30, 5];
    // sum a_i s_i = 3 + 30 + 5 = 38.
    for m in 0..=1i64 {
        for d in -3..=3i64 {
            let b = 38 + 8 * m + d;
            let (ea, eb) = bootstrap(&acc, &bk, &a, b);
            assert_eq!(lwe_decrypt(&ea, eb, &ext_sk), m);
        }
    }
}

#[test]
fn rgsw_keygen_from_builds_the_rows() {
    let mut s = Poly::zero();
    s.coefs[0] = 1;
    s.coefs[3] = 1;
    let mut a0s = Vec::new();
    let mut es = Vec::new();
    for i in 0..M {
        let mut a0 = Poly::zero();
        a0.coefs[1] = 10 + i as i64;
        a0s.push(a0);
        let mut e = Poly::zero();
        e.coefs[2] = -1;
        es.push(e);
    }
    let (v, a) = keygen_from(&s, &a0s, &es);
    assert_eq!((v.rows, v.cols, a.rows, a.cols), (2, 1, M, 2));
    assert_eq!(v.get(0, 0).coefs[0], Q - 1);
    assert_eq!(v.get(0, 0).coefs[3], Q - 1);
    assert_eq!(v.get(1, 0).coefs[0], 1);
    for i in 0..M {
        assert_eq!(a.get(i, 0).coefs, a0s[i].coefs);
        let row = a.get(i, 1);
        // (10 + i) X * (1 + X^3) - X^2 = (10 + i) X + (10 + i) X^4 - X^2.
        assert_eq!(row.coefs[1], 10 + i as i64);
        assert_eq!(row.coefs[4], 10 + i as i64);
        assert_eq!(row.coefs[2], Q - 1);
        assert_eq!(row.coefs[0], 0);
    }
    let _ = L;
}

#[test]
fn rgsw_encrypt_with_zero_randomness_is_the_gadget() {
    let mut rng = thread_rng();
    let (_v, a) = keygen(&mut rng);
    let r = PolyMatrix::zeros(M, 2 * L);
    let c = encrypt_with_randomness(&a, &r, &Poly::from_scalar(1));
    assert_eq!((c.rows, c.cols), (2, 2 * L));
    assert_eq!(c.get(0, 0).coefs[0], 1);
    assert_eq!(c.get(0, 5).coefs[0], 32);
    assert_eq!(c.get(1, 2 * L - 1).coefs[0], 1i64 << 34);
    assert_eq!(c.get(0, L).coefs[0], 0);
    assert_eq!(c.get(1, 0).coefs[0], 0);
    let c3 = encrypt_with_randomness(&a, &r, &Poly::from_scalar(3));
    assert_eq!(c3.get(1, L + 2).coefs[0], 12);
}
